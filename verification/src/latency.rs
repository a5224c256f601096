//! The latency circuit: per-URI thresholds chosen by ordered regex rules, and
//! a map of recent latency breaches that diverts a URI to the cache for a
//! bounded failover window.

use vstd::prelude::*;

verus! {

use crate::config::{LatencyFailover, MaxLatencyRule};
use crate::kvmap::StrU64Map;

/// How long a latency breach keeps a URI in failover, in milliseconds.
pub const FAILOVER_WINDOW_MS: u64 = 300000;

/// Whether the pattern is a well-formed regular expression. Names what
/// regex::Regex::new decides; it depends on the pattern alone.
pub uninterp spec fn regex_valid(pattern: Seq<char>) -> bool;

/// Whether the pattern matches somewhere in the text. Names what
/// regex::Regex::is_match returns; it depends on the pattern and the text
/// alone.
pub uninterp spec fn regex_matches(pattern: Seq<char>, text: Seq<char>) -> bool;

/// Relies on regex::Regex::new and regex::Regex::is_match: compiling depends
/// on the pattern alone, matching on the pattern and the text alone.
#[verifier::external_body]
fn regex_is_match(pattern: &str, text: &str) -> (r: Option<bool>)
    ensures
        r is Some <==> regex_valid(pattern@),
        r is Some ==> r->0 == regex_matches(pattern@, text@),
{
    match regex::Regex::new(pattern) {
        Ok(re) => Some(re.is_match(text)),
        Err(_) => None,
    }
}

/// The latency threshold the ordered rules give a URI: the first rule whose
/// pattern is a valid regex matching the URI wins; invalid patterns are
/// skipped; with no match the default applies.
pub open spec fn threshold_of(rules: Seq<MaxLatencyRule>, default_ms: u64, uri: Seq<char>) -> u64
    decreases rules.len(),
{
    if rules.len() == 0 {
        default_ms
    } else if regex_valid(rules[0].pattern@) && regex_matches(rules[0].pattern@, uri) {
        rules[0].max_latency_ms
    } else {
        threshold_of(rules.drop_first(), default_ms, uri)
    }
}

/// Returns the latency threshold (in milliseconds) for the given URI. If the
/// URI matches a rule's regex, that rule's threshold is returned; otherwise
/// the default.
pub fn get_max_latency_for_path(failover: &LatencyFailover, uri: &str) -> (r: u64)
    ensures
        r == threshold_of(failover.path_rules@, failover.default_max_latency_ms, uri@),
{
    let rules = &failover.path_rules;
    let n = rules.len();
    proof {
        assert(rules@.skip(0) =~= rules@);
    }
    let mut i: usize = 0;
    while i < n
        invariant
            rules@ == failover.path_rules@,
            n == rules@.len(),
            i <= n,
            threshold_of(rules@, failover.default_max_latency_ms, uri@) == threshold_of(
                rules@.skip(i as int),
                failover.default_max_latency_ms,
                uri@,
            ),
        decreases n - i,
    {
        proof {
            assert(rules@.skip(i as int)[0] == rules@[i as int]);
        }
        let matched = regex_is_match(rules[i].pattern.as_str(), uri);
        match matched {
            Some(true) => {
                proof {
                    let sk = rules@.skip(i as int);
                    assert(sk.len() > 0);
                    assert(sk[0] == rules@[i as int]);
                    assert(regex_valid(sk[0].pattern@) && regex_matches(sk[0].pattern@, uri@));
                    assert(threshold_of(sk, failover.default_max_latency_ms, uri@)
                        == sk[0].max_latency_ms);
                }
                return rules[i].max_latency_ms;
            },
            _ => {},
        }
        proof {
            assert(rules@.skip(i as int).drop_first() =~= rules@.skip(i + 1));
        }
        i = i + 1;
    }
    failover.default_max_latency_ms
}

/// `now - t`, clamped at zero for timestamps that lie ahead of `now`.
pub open spec fn elapsed_since(now: u64, t: u64) -> u64 {
    if now >= t {
        (now - t) as u64
    } else {
        0
    }
}

/// Whether the circuit is open for `uri` at time `now`: a breach was marked
/// less than the failover window ago.
pub open spec fn open_at(m: Map<Seq<char>, u64>, uri: Seq<char>, now: u64) -> bool {
    m.contains_key(uri) && elapsed_since(now, m[uri]) < FAILOVER_WINDOW_MS
}

/// Tracks recent high-latency failures per URI. Used to decide when to serve
/// a route from the cache instead of the origin.
pub struct LatencyCircuit {
    breaches: StrU64Map,
}

impl LatencyCircuit {
    /// The per-URI timestamps of the most recent breaches.
    pub closed spec fn view(&self) -> Map<Seq<char>, u64> {
        self.breaches@
    }

    /// Well-formedness of the backing map.
    pub closed spec fn wf(&self) -> bool {
        self.breaches.wf()
    }

    /// A circuit with no breaches recorded.
    pub fn new() -> (r: Self)
        ensures
            r.wf(),
            r@ == Map::<Seq<char>, u64>::empty(),
    {
        LatencyCircuit { breaches: StrU64Map::new() }
    }

    /// Returns true if the given URI breached its latency threshold within
    /// the failover window ending at `now_ms`, and should therefore be served
    /// from the cache.
    pub fn should_failover(&self, uri: &str, now_ms: u64) -> (r: bool)
        requires
            self.wf(),
        ensures
            r == open_at(self@, uri@, now_ms),
    {
        match self.breaches.get(uri) {
            Some(t) => {
                if now_ms >= t {
                    now_ms - t < FAILOVER_WINDOW_MS
                } else {
                    true
                }
            },
            None => false,
        }
    }

    /// Marks a URI as having violated its latency threshold at `now_ms`,
    /// overwriting any earlier mark.
    pub fn mark_latency_fail(&mut self, uri: &str, now_ms: u64)
        requires
            old(self).wf(),
        ensures
            final(self).wf(),
            final(self)@ == old(self)@.insert(uri@, now_ms),
    {
        self.breaches.set(uri, now_ms);
    }
}

/// Law: once a breach is marked for a URI, the circuit stays open for that
/// URI at every instant of the failover window that follows the mark.
pub proof fn lemma_breach_keeps_circuit_open(
    m: Map<Seq<char>, u64>,
    uri: Seq<char>,
    t_mark: u64,
    now: u64,
)
    requires
        now >= t_mark,
        now - t_mark < FAILOVER_WINDOW_MS,
    ensures
        open_at(m.insert(uri, t_mark), uri, now),
{
}

} // verus!
