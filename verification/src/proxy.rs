//! The request engine: for each incoming GET it derives the fingerprint,
//! applies the bypass and refresh rules, consults the latency circuit,
//! decides between origin and cache, observes latency, and decides what the
//! cache tiers store. The engine holds the shared state and makes every
//! decision; the transport performs the origin call and the durable I/O and
//! hands the results back.

use vstd::prelude::*;

verus! {

use vstd::string::StringExecFns;
use vstd::string::StringSliceAdditionalSpecFns;
use vstd::utf8::encode_utf8;
use crate::bypass::{should_bypass_cache, bypass_of};
use crate::config::LatencyFailover;
use crate::fingerprint::{fingerprint, fingerprint_of, header_bytes, ignored_bytes};
use crate::latency::{LatencyCircuit, open_at, threshold_of};
use crate::memory::{MemoryCache, CachedResponse, Envelope, EvictReport, pct_of};
use crate::refresh::{RefreshSampler, hit_count, next_count, refresh_modulus};
use crate::text::lower_chars;

/// A complete HTTP response, as plain values.
pub struct HttpResponse {
    pub status: u16,
    pub headers: Vec<(String, String)>,
    pub body: Vec<u8>,
}

/// A persistence job for the durable tier's writer.
pub struct PersistJob {
    pub key: String,
    pub body: Vec<u8>,
    pub headers: Vec<(String, String)>,
}

/// What finishing an origin response produced: the client response, the
/// persistence job when the response was stored, and the eviction pass's
/// report when the hot tier was written.
pub struct OriginOutcome {
    pub response: HttpResponse,
    pub persist: Option<PersistJob>,
    pub evict: Option<EvictReport>,
}

/// Whether a header list names a content type.
pub open spec fn has_content_type(headers: Seq<(String, String)>) -> bool {
    exists|i: int|
        0 <= i < headers.len() && lower_chars((#[trigger] headers[i]).0@) == "content-type"@
}

/// Whether a header-pair view names a content type.
pub open spec fn has_content_type_view(headers: Seq<(Seq<char>, Seq<char>)>) -> bool {
    exists|i: int|
        0 <= i < headers.len() && lower_chars((#[trigger] headers[i]).0) == "content-type"@
}

/// The headers a cached response is served with: the stored ones, with the
/// default content type appended when none is named.
pub open spec fn served_headers(stored: Seq<(Seq<char>, Seq<char>)>) -> Seq<
    (Seq<char>, Seq<char>),
> {
    if has_content_type_view(stored) {
        stored
    } else {
        stored.push(("Content-Type"@, "application/octet-stream"@))
    }
}

proof fn lemma_content_type_view(headers: Seq<(String, String)>)
    ensures
        has_content_type(headers) == has_content_type_view(crate::text::headers_view(headers)),
{
    let hv = crate::text::headers_view(headers);
    if has_content_type(headers) {
        let i = choose|i: int|
            0 <= i < headers.len() && lower_chars((#[trigger] headers[i]).0@) == "content-type"@;
        assert(hv[i].0 == headers[i].0@);
        assert(has_content_type_view(hv));
    }
    if has_content_type_view(hv) {
        let i = choose|i: int|
            0 <= i < hv.len() && lower_chars((#[trigger] hv[i]).0) == "content-type"@;
        assert(hv[i].0 == headers[i].0@);
        assert(has_content_type(headers));
    }
}

/// Composes a 200 response from a cached body and headers, adding a default
/// content type when none is named.
pub fn build_response(body: Vec<u8>, headers: Vec<(String, String)>) -> (r: HttpResponse)
    ensures
        r.status == 200,
        r.body@ == body@,
        crate::text::headers_view(r.headers@) == served_headers(
            crate::text::headers_view(headers@),
        ),
        has_content_type(headers@) ==> r.headers@ == headers@,
{
    let mut headers = headers;
    let n = headers.len();
    let mut has_ct = false;
    let mut i: usize = 0;
    while i < n
        invariant
            n == headers@.len(),
            i <= n,
            has_ct == exists|j: int|
                0 <= j < i && lower_chars((#[trigger] headers@[j]).0@) == "content-type"@,
        decreases n - i,
    {
        let lowered = headers[i].0.as_str().to_ascii_lowercase();
        if crate::text::str_eq(lowered.as_str(), "content-type") {
            has_ct = true;
        }
        i = i + 1;
    }
    proof {
        lemma_content_type_view(headers@);
    }
    if !has_ct {
        let ghost pre = headers@;
        headers.push(
            (String::from_str("Content-Type"), String::from_str("application/octet-stream")),
        );
        proof {
            assert(crate::text::headers_view(headers@) =~= crate::text::headers_view(pre).push(
                ("Content-Type"@, "application/octet-stream"@),
            ));
        }
    }
    HttpResponse { status: 200, headers, body }
}

/// The headers with `content-length` removed; the transport recomputes it
/// from the buffered body.
pub open spec fn without_content_length(headers: Seq<(String, String)>) -> Seq<(String, String)> {
    headers.filter(|p: (String, String)| lower_chars(p.0@) != "content-length"@)
}

/// Removes any `content-length` header.
pub fn strip_content_length(headers: Vec<(String, String)>) -> (r: Vec<(String, String)>)
    ensures
        r@ == without_content_length(headers@),
{
    let n = headers.len();
    let mut out: Vec<(String, String)> = Vec::new();
    proof {
        reveal(Seq::filter);
        assert(out@ =~= without_content_length(headers@.take(0)));
    }
    let mut i: usize = 0;
    let mut rest = headers;
    let ghost all = rest@;
    while i < n
        invariant
            n == all.len(),
            i <= n,
            rest@ =~= all.skip(i as int),
            out@ == without_content_length(all.take(i as int)),
        decreases n - i,
    {
        let ghost before = rest@;
        let pair = rest.remove(0);
        proof {
            assert(rest@ =~= before.drop_first());
            assert(before[0] == all[i as int]);
        }
        let lowered = pair.0.as_str().to_ascii_lowercase();
        let keep = !crate::text::str_eq(lowered.as_str(), "content-length");
        if keep {
            out.push(pair);
        }
        proof {
            reveal(Seq::filter);
            assert(all.take(i + 1).drop_last() =~= all.take(i as int));
            assert(all.take(i + 1).last() == all[i as int]);
        }
        i = i + 1;
    }
    proof {
        assert(all.take(n as int) =~= all);
    }
    out
}

/// The request headers an origin call carries: all of them except
/// `accept-encoding` and `host`; the transport sets its own host header and
/// must not advertise encodings it cannot undo.
pub open spec fn forwardable_headers(headers: Seq<(String, String)>) -> Seq<(String, String)> {
    headers.filter(
        |p: (String, String)|
            lower_chars(p.0@) != "accept-encoding"@ && lower_chars(p.0@) != "host"@,
    )
}

/// Selects the request headers to copy onto the origin call.
pub fn forward_request_headers(headers: Vec<(String, String)>) -> (r: Vec<(String, String)>)
    ensures
        r@ == forwardable_headers(headers@),
{
    let n = headers.len();
    let mut out: Vec<(String, String)> = Vec::new();
    proof {
        reveal(Seq::filter);
        assert(out@ =~= forwardable_headers(headers@.take(0)));
    }
    let mut i: usize = 0;
    let mut rest = headers;
    let ghost all = rest@;
    while i < n
        invariant
            n == all.len(),
            i <= n,
            rest@ =~= all.skip(i as int),
            out@ == forwardable_headers(all.take(i as int)),
        decreases n - i,
    {
        let ghost before = rest@;
        let pair = rest.remove(0);
        proof {
            assert(rest@ =~= before.drop_first());
            assert(before[0] == all[i as int]);
        }
        let lowered = pair.0.as_str().to_ascii_lowercase();
        let keep = !crate::text::str_eq(lowered.as_str(), "accept-encoding")
            && !crate::text::str_eq(lowered.as_str(), "host");
        if keep {
            out.push(pair);
        }
        proof {
            reveal(Seq::filter);
            assert(all.take(i + 1).drop_last() =~= all.take(i as int));
            assert(all.take(i + 1).last() == all[i as int]);
        }
        i = i + 1;
    }
    proof {
        assert(all.take(n as int) =~= all);
    }
    out
}

/// Whether a status speaks of success.
pub open spec fn is_success(status: u16) -> bool {
    200 <= status < 300
}

/// Whether the tiers store this origin response: never on bypass, only on a
/// 2xx status, and, when the circuit is already open for the URI, only if
/// this very call breached its threshold and so restarted the window.
pub open spec fn store_decision(
    bypass: bool,
    status: u16,
    breached: bool,
    fallback_active: bool,
) -> bool {
    !bypass && is_success(status) && (breached || !fallback_active)
}

/// Law: a bypass request writes neither cache tier.
pub proof fn lemma_bypass_suppresses_store(
    bypass: bool,
    status: u16,
    breached: bool,
    fallback_active: bool,
)
    requires
        bypass,
    ensures
        !store_decision(bypass, status, breached, fallback_active),
{
}

/// Law: a non-2xx origin response is never stored.
pub proof fn lemma_failure_suppresses_store(
    bypass: bool,
    status: u16,
    breached: bool,
    fallback_active: bool,
)
    requires
        !is_success(status),
    ensures
        !store_decision(bypass, status, breached, fallback_active),
{
}

/// The shared state the engine drives for every request.
pub struct ProxyState {
    pub memory: MemoryCache,
    pub circuit: LatencyCircuit,
    pub sampler: RefreshSampler,
}

/// What the engine decided to do with an incoming request.
pub struct RequestPlan {
    pub key: String,
    pub bypass: bool,
    pub refresh: bool,
    pub failover: bool,
}

/// The state well-formedness the engine keeps.
pub open spec fn state_wf(s: ProxyState) -> bool {
    s.circuit.wf() && s.sampler.wf()
}

impl ProxyState {
    /// A fresh engine state with empty tiers.
    pub fn new() -> (r: Self)
        ensures
            state_wf(r),
            r.memory@ == crate::memory::empty_hot(),
            r.circuit@ == Map::<Seq<char>, u64>::empty(),
            r.sampler@ == Map::<Seq<char>, u64>::empty(),
    {
        ProxyState {
            memory: MemoryCache::new(),
            circuit: LatencyCircuit::new(),
            sampler: RefreshSampler::new(),
        }
    }

    /// The entry decision for a request: derives the fingerprint, counts the
    /// refresh hit, reads the bypass header, and reports whether the latency
    /// circuit diverts this URI to the cache.
    pub fn plan_request(
        &mut self,
        uri: &str,
        headers: &Vec<(String, String)>,
        ignored: &Vec<String>,
        refresh_percentage: u8,
        now_ms: u64,
    ) -> (r: RequestPlan)
        requires
            state_wf(*old(self)),
            refresh_percentage <= 100,
        ensures
            state_wf(*final(self)),
            r.key@ == fingerprint_of(
                encode_utf8(uri@),
                header_bytes(headers@),
                ignored_bytes(ignored@),
            ),
            r.bypass == bypass_of(headers@),
            refresh_percentage == 0 ==> final(self).sampler@ == old(self).sampler@ && r.refresh
                == r.bypass,
            refresh_percentage > 0 ==> {
                let c = next_count(hit_count(old(self).sampler@, r.key@));
                &&& final(self).sampler@ == old(self).sampler@.insert(r.key@, c)
                &&& r.refresh == ((c % refresh_modulus(refresh_percentage) == 0) || r.bypass)
            },
            r.failover == (open_at(old(self).circuit@, uri@, now_ms) && !r.refresh),
            final(self).memory == old(self).memory,
            final(self).circuit == old(self).circuit,
    {
        let key = fingerprint(uri, headers, ignored);
        let bypass = should_bypass_cache(headers);
        let sampled = self.sampler.should_refresh(key.as_str(), refresh_percentage);
        let refresh = sampled || bypass;
        let failover = self.circuit.should_failover(uri, now_ms) && !refresh;
        RequestPlan { key, bypass, refresh, failover }
    }

    /// Observes an origin call's latency: reads the URI's threshold from the
    /// rules and, on a breach, marks the circuit.
    pub fn observe_latency(
        &mut self,
        uri: &str,
        elapsed_ms: u64,
        failover_rules: &LatencyFailover,
        now_ms: u64,
    ) -> (breached: bool)
        requires
            state_wf(*old(self)),
        ensures
            state_wf(*final(self)),
            breached == (elapsed_ms > threshold_of(
                failover_rules.path_rules@,
                failover_rules.default_max_latency_ms,
                uri@,
            )),
            breached ==> final(self).circuit@ == old(self).circuit@.insert(uri@, now_ms),
            !breached ==> final(self).circuit == old(self).circuit,
            final(self).memory == old(self).memory,
            final(self).sampler == old(self).sampler,
    {
        let threshold = crate::latency::get_max_latency_for_path(failover_rules, uri);
        if elapsed_ms > threshold {
            self.circuit.mark_latency_fail(uri, now_ms);
            true
        } else {
            false
        }
    }

    /// Finishes a successful origin call: strips `content-length`, decides
    /// whether to store, and on a store inserts the envelope into the hot
    /// tier and hands back the persistence job for the durable writer along
    /// with the eviction pass's report. A bypass request and a non-2xx
    /// response leave both tiers unwritten; with memory below the threshold
    /// the stored envelope stands in the hot tier afterwards.
    pub fn finish_origin_response(
        &mut self,
        plan: &RequestPlan,
        uri: &str,
        status: u16,
        headers: Vec<(String, String)>,
        body: Vec<u8>,
        breached: bool,
        now_epoch_secs: u64,
        now_ms: u64,
        memory_threshold: u64,
    ) -> (r: OriginOutcome)
        requires
            state_wf(*old(self)),
        ensures
            state_wf(*final(self)),
            r.response.status == status,
            r.response.headers@ == without_content_length(headers@),
            r.response.body@ == body@,
            final(self).circuit == old(self).circuit,
            final(self).sampler == old(self).sampler,
            ({
                let fallback_active = open_at(old(self).circuit@, uri@, now_ms);
                let store = store_decision(plan.bypass, status, breached, fallback_active);
                &&& !store ==> final(self).memory == old(self).memory && r.persist is None
                    && r.evict is None
                &&& store ==> (r.persist matches Some(job) && {
                    &&& job.key@ == plan.key@
                    &&& job.body@ == body@
                    &&& crate::text::headers_view(job.headers@) == crate::text::headers_view(
                        without_content_length(headers@),
                    )
                })
                &&& store ==> (r.evict matches Some(rep) && (pct_of(rep.first_used, rep.first_total)
                    < memory_threshold ==> final(self).memory@ == old(self).memory@.insert(
                    plan.key@,
                    (Envelope {
                        body: body@,
                        headers: crate::text::headers_view(without_content_length(headers@)),
                        inserted_at: now_epoch_secs,
                    }),
                )))
            }),
            plan.bypass ==> final(self).memory == old(self).memory && r.persist is None,
            !is_success(status) ==> final(self).memory == old(self).memory && r.persist is None,
            forall|k: Seq<char>|
                #[trigger] final(self).memory@.contains_key(k)
                    ==> ((old(self).memory@.contains_key(k)
                        && final(self).memory@[k] == old(self).memory@[k])
                    || (k == plan.key@ && final(self).memory@[k].body == body@
                        && final(self).memory@[k].headers == crate::text::headers_view(
                        without_content_length(headers@),
                    ) && final(self).memory@[k].inserted_at == now_epoch_secs)),
    {
        let stripped = strip_content_length(headers);
        let fallback_active = self.circuit.should_failover(uri, now_ms);
        let success = 200 <= status && status < 300;
        let store = !plan.bypass && success && (breached || !fallback_active);
        proof {
            assert(store == store_decision(
                plan.bypass,
                status,
                breached,
                open_at(self.circuit@, uri@, now_ms),
            ));
        }
        if store {
            let env_headers = clone_headers(&stripped);
            let env_body = crate::text::clone_bytes(&body);
            let job_key = plan.key.as_str().to_owned();
            let envelope = CachedResponse {
                body: env_body,
                headers: env_headers,
                inserted_at: now_epoch_secs,
            };
            let entry_key = plan.key.as_str().to_owned();
            let mut batch: Vec<(String, CachedResponse)> = Vec::new();
            batch.push((entry_key, envelope));
            let ghost pre = self.memory@;
            let ghost batch_view = batch@;
            let rep = self.memory.load_into_memory(batch, memory_threshold);
            proof {
                lemma_single_insert(pre, batch_view);
                assert(batch_view[0].1@ =~= (Envelope {
                    body: body@,
                    headers: crate::text::headers_view(without_content_length(headers@)),
                    inserted_at: now_epoch_secs,
                }));
            }
            let job_headers = clone_headers(&stripped);
            let job_body = crate::text::clone_bytes(&body);
            let job = PersistJob { key: job_key, body: job_body, headers: job_headers };
            let response = HttpResponse { status, headers: stripped, body };
            OriginOutcome { response, persist: Some(job), evict: Some(rep) }
        } else {
            let response = HttpResponse { status, headers: stripped, body };
            OriginOutcome { response, persist: None, evict: None }
        }
    }

    /// The saturated path: admission was rejected, so serve from the hot
    /// tier (touching its recency) or fail with the diagnostic 502.
    pub fn handle_saturated(&mut self, plan: &RequestPlan) -> (r: HttpResponse)
        requires
            state_wf(*old(self)),
        ensures
            state_wf(*final(self)),
            final(self).memory@ == old(self).memory@,
            final(self).circuit == old(self).circuit,
            final(self).sampler == old(self).sampler,
            old(self).memory@.contains_key(plan.key@) ==> {
                &&& r.status == 200
                &&& r.body@ == old(self).memory@[plan.key@].body
                &&& crate::text::headers_view(r.headers@) == served_headers(
                    old(self).memory@[plan.key@].headers,
                )
                &&& final(self).memory.order() == crate::memory::promote(
                    old(self).memory.order(),
                    plan.key@,
                )
            },
            !old(self).memory@.contains_key(plan.key@) ==> {
                &&& r.status == 502
                &&& r.body@ == encode_utf8("Too many concurrent requests and no cache available"@)
                &&& final(self).memory.order() == old(self).memory.order()
            },
    {
        match self.memory.get_from_memory(plan.key.as_str()) {
            Some(cached) => build_response(cached.body, cached.headers),
            None => HttpResponse {
                status: 502,
                headers: Vec::new(),
                body: vstd::slice::slice_to_vec(
                    "Too many concurrent requests and no cache available".as_bytes(),
                ),
            },
        }
    }

    /// The hot half of the fallback path: a hot hit is served with the
    /// stored body and headers and touches the entry's recency.
    pub fn try_cache_hot(&mut self, plan: &RequestPlan) -> (r: Option<HttpResponse>)
        requires
            state_wf(*old(self)),
        ensures
            state_wf(*final(self)),
            final(self).memory@ == old(self).memory@,
            final(self).circuit == old(self).circuit,
            final(self).sampler == old(self).sampler,
            old(self).memory@.contains_key(plan.key@) ==> (r matches Some(resp) && {
                &&& resp.status == 200
                &&& resp.body@ == old(self).memory@[plan.key@].body
                &&& crate::text::headers_view(resp.headers@) == served_headers(
                    old(self).memory@[plan.key@].headers,
                )
                &&& final(self).memory.order() == crate::memory::promote(
                    old(self).memory.order(),
                    plan.key@,
                )
            }),
            !old(self).memory@.contains_key(plan.key@) ==> r is None && final(self).memory.order()
                == old(self).memory.order(),
    {
        match self.memory.get_from_memory(plan.key.as_str()) {
            Some(cached) => Some(build_response(cached.body, cached.headers)),
            None => None,
        }
    }

    /// The durable half of the fallback path: what the durable tier returned
    /// is promoted into the hot tier and served with its headers, or the
    /// request fails with the diagnostic 502. With memory below the
    /// threshold the promoted envelope stands in the hot tier afterwards;
    /// the eviction pass's report says which samples decided.
    pub fn on_durable_result(
        &mut self,
        plan: &RequestPlan,
        loaded: Option<(Vec<u8>, Vec<(String, String)>)>,
        now_epoch_secs: u64,
        memory_threshold: u64,
    ) -> (r: (HttpResponse, Option<EvictReport>))
        requires
            state_wf(*old(self)),
        ensures
            state_wf(*final(self)),
            final(self).circuit == old(self).circuit,
            final(self).sampler == old(self).sampler,
            loaded matches Some(v) ==> {
                &&& r.0.status == 200
                &&& r.0.body@ == v.0@
                &&& crate::text::headers_view(r.0.headers@) == served_headers(
                    crate::text::headers_view(v.1@),
                )
                &&& (r.1 matches Some(rep) && (pct_of(rep.first_used, rep.first_total)
                    < memory_threshold ==> final(self).memory@ == old(self).memory@.insert(
                    plan.key@,
                    (Envelope {
                        body: v.0@,
                        headers: crate::text::headers_view(v.1@),
                        inserted_at: now_epoch_secs,
                    }),
                )))
            },
            loaded is None ==> r.0.status == 502 && r.0.body@ == encode_utf8(
                "Downstream error and no cache"@,
            ) && final(self).memory == old(self).memory && r.1 is None,
            loaded matches Some(v) ==> forall|k: Seq<char>|
                #[trigger] final(self).memory@.contains_key(k)
                    ==> ((old(self).memory@.contains_key(k)
                        && final(self).memory@[k] == old(self).memory@[k])
                    || (k == plan.key@ && final(self).memory@[k].body == v.0@
                        && final(self).memory@[k].headers == crate::text::headers_view(v.1@)
                        && final(self).memory@[k].inserted_at == now_epoch_secs)),
    {
        match loaded {
            Some((body, headers)) => {
                let env_body = crate::text::clone_bytes(&body);
                let env_headers = clone_headers(&headers);
                let envelope = CachedResponse {
                    body: env_body,
                    headers: env_headers,
                    inserted_at: now_epoch_secs,
                };
                let key = plan.key.as_str().to_owned();
                let mut batch: Vec<(String, CachedResponse)> = Vec::new();
                batch.push((key, envelope));
                let ghost pre = self.memory@;
                let ghost batch_view = batch@;
                let rep = self.memory.load_into_memory(batch, memory_threshold);
                proof {
                    lemma_single_insert(pre, batch_view);
                    assert(batch_view[0].1@ =~= (Envelope {
                        body: body@,
                        headers: crate::text::headers_view(headers@),
                        inserted_at: now_epoch_secs,
                    }));
                }
                (build_response(body, headers), Some(rep))
            },
            None => (
                HttpResponse {
                    status: 502,
                    headers: Vec::new(),
                    body: vstd::slice::slice_to_vec("Downstream error and no cache".as_bytes()),
                },
                None,
            ),
        }
    }
}

proof fn lemma_single_insert(
    m: Map<Seq<char>, crate::memory::Envelope>,
    batch: Seq<(String, CachedResponse)>,
)
    requires
        batch.len() == 1,
    ensures
        crate::memory::after_insert_map(m, batch) == m.insert(batch[0].0@, batch[0].1@),
{
    let e = Seq::<(String, CachedResponse)>::empty();
    assert(batch.drop_first() =~= e);
    assert(crate::memory::after_insert_map(m.insert(batch[0].0@, batch[0].1@), e) == m.insert(
        batch[0].0@,
        batch[0].1@,
    ));
    assert(crate::memory::after_insert_map(m, batch) == crate::memory::after_insert_map(
        m.insert(batch[0].0@, batch[0].1@),
        batch.drop_first(),
    ));
}

/// Copies a header list.
fn clone_headers(headers: &Vec<(String, String)>) -> (r: Vec<(String, String)>)
    ensures
        crate::text::headers_view(r@) == crate::text::headers_view(headers@),
{
    let mut out: Vec<(String, String)> = Vec::new();
    let n = headers.len();
    let mut i: usize = 0;
    while i < n
        invariant
            n == headers@.len(),
            i <= n,
            crate::text::headers_view(out@) =~= crate::text::headers_view(
                headers@.take(i as int),
            ),
        decreases n - i,
    {
        let k = headers[i].0.as_str().to_owned();
        let v = headers[i].1.as_str().to_owned();
        let ghost prevv = out@;
        out.push((k, v));
        proof {
            assert(crate::text::headers_view(out@) =~= crate::text::headers_view(prevv).push(
                (k@, v@),
            ));
            assert(headers@.take(i + 1) =~= headers@.take(i as int).push(headers@[i as int]));
            assert(crate::text::headers_view(headers@.take(i + 1))
                =~= crate::text::headers_view(headers@.take(i as int)).push(
                (headers@[i as int].0@, headers@[i as int].1@),
            ));
            assert(crate::text::headers_view(out@) =~= crate::text::headers_view(
                headers@.take(i + 1),
            ));
        }
        i = i + 1;
    }
    proof {
        assert(headers@.take(n as int) =~= headers@);
    }
    out
}

} // verus!
