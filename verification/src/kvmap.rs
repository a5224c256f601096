//! A small string-keyed map of counters and timestamps, backed by a vector
//! with unique keys. It models the per-URI breach map of the latency circuit
//! and the per-fingerprint hit counters of the refresh sampler.

use vstd::prelude::*;

verus! {

use crate::text::str_eq;

/// The mathematical map a sequence of key-value pairs stands for; a later
/// pair overrides an earlier one with the same key.
pub open spec fn map_of(s: Seq<(String, u64)>) -> Map<Seq<char>, u64>
    decreases s.len(),
{
    if s.len() == 0 {
        Map::<Seq<char>, u64>::empty()
    } else {
        map_of(s.drop_last()).insert(s.last().0@, s.last().1)
    }
}

/// No key occurs twice.
pub open spec fn unique_keys(s: Seq<(String, u64)>) -> bool {
    forall|i: int, j: int| 0 <= i < j < s.len() ==> #[trigger] s[i].0@ != #[trigger] s[j].0@
}

proof fn lemma_map_of_len(s: Seq<(String, u64)>)
    requires
        unique_keys(s),
    ensures
        map_of(s).dom().len() == s.len(),
        map_of(s).dom().finite(),
    decreases s.len(),
{
    if s.len() > 0 {
        let prefix = s.drop_last();
        lemma_map_of_len(prefix);
        lemma_map_of_absent(prefix, s.last().0@);
    }
}

proof fn lemma_map_of_absent(s: Seq<(String, u64)>, k: Seq<char>)
    requires
        forall|i: int| 0 <= i < s.len() ==> #[trigger] s[i].0@ != k,
    ensures
        !map_of(s).contains_key(k),
    decreases s.len(),
{
    if s.len() > 0 {
        lemma_map_of_absent(s.drop_last(), k);
    }
}

proof fn lemma_map_of_present(s: Seq<(String, u64)>, i: int)
    requires
        unique_keys(s),
        0 <= i < s.len(),
    ensures
        map_of(s).contains_key(s[i].0@),
        map_of(s)[s[i].0@] == s[i].1,
    decreases s.len(),
{
    if i < s.len() - 1 {
        lemma_map_of_present(s.drop_last(), i);
    }
}

proof fn lemma_map_of_update(s: Seq<(String, u64)>, i: int, kv: (String, u64))
    requires
        unique_keys(s),
        0 <= i < s.len(),
        s[i].0@ == kv.0@,
    ensures
        map_of(s.update(i, kv)) =~= map_of(s).insert(kv.0@, kv.1),
    decreases s.len(),
{
    let t = s.update(i, kv);
    if i == s.len() - 1 {
        assert(t.drop_last() =~= s.drop_last());
    } else {
        assert(t.drop_last() =~= s.drop_last().update(i, kv));
        lemma_map_of_update(s.drop_last(), i, kv);
        assert(t.last() == s.last());
        assert(kv.0@ != s.last().0@);
        assert(map_of(t) =~= map_of(s.drop_last()).insert(kv.0@, kv.1).insert(
            s.last().0@,
            s.last().1,
        ));
        assert(map_of(s.drop_last()).insert(kv.0@, kv.1).insert(s.last().0@, s.last().1) =~= map_of(
            s.drop_last(),
        ).insert(s.last().0@, s.last().1).insert(kv.0@, kv.1));
    }
}

/// A mapping from strings to `u64` values.
pub struct StrU64Map {
    entries: Vec<(String, u64)>,
}

impl StrU64Map {
    /// The mathematical map this structure stands for.
    pub closed spec fn view(&self) -> Map<Seq<char>, u64> {
        map_of(self.entries@)
    }

    /// Well-formedness: the backing vector names every key once.
    pub closed spec fn wf(&self) -> bool {
        unique_keys(self.entries@)
    }

    /// An empty map.
    pub fn new() -> (r: Self)
        ensures
            r.wf(),
            r@ == Map::<Seq<char>, u64>::empty(),
    {
        StrU64Map { entries: Vec::new() }
    }

    /// How many keys the map holds.
    pub fn len(&self) -> (r: usize)
        requires
            self.wf(),
        ensures
            r == self@.dom().len(),
    {
        proof {
            lemma_map_of_len(self.entries@);
        }
        self.entries.len()
    }

    /// The value stored for `key`, if any.
    pub fn get(&self, key: &str) -> (r: Option<u64>)
        requires
            self.wf(),
        ensures
            r == if self@.contains_key(key@) {
                Some(self@[key@])
            } else {
                None::<u64>
            },
    {
        let n = self.entries.len();
        let mut i: usize = 0;
        while i < n
            invariant
                self.wf(),
                n == self.entries@.len(),
                i <= n,
                forall|j: int| 0 <= j < i ==> #[trigger] self.entries@[j].0@ != key@,
            decreases n - i,
        {
            if str_eq(self.entries[i].0.as_str(), key) {
                proof {
                    lemma_map_of_present(self.entries@, i as int);
                }
                return Some(self.entries[i].1);
            }
            i = i + 1;
        }
        proof {
            lemma_map_of_absent(self.entries@, key@);
        }
        None
    }

    /// Sets `key` to `value`, replacing any earlier value.
    pub fn set(&mut self, key: &str, value: u64)
        requires
            old(self).wf(),
        ensures
            final(self).wf(),
            final(self)@ == old(self)@.insert(key@, value),
    {
        let ghost orig = self.entries@;
        let n = self.entries.len();
        let mut i: usize = 0;
        while i < n
            invariant
                self.entries@ == orig,
                orig == old(self).entries@,
                unique_keys(orig),
                n == orig.len(),
                i <= n,
                forall|j: int| 0 <= j < i ==> #[trigger] orig[j].0@ != key@,
            decreases n - i,
        {
            if str_eq(self.entries[i].0.as_str(), key) {
                let kv = (key.to_owned(), value);
                self.entries[i] = kv;
                proof {
                    let kvg = self.entries@[i as int];
                    assert(kvg.0@ == key@);
                    assert(kvg.1 == value);
                    assert(self.entries@ =~= orig.update(i as int, kvg));
                    lemma_map_of_update(orig, i as int, kvg);
                    assert(map_of(self.entries@) == map_of(orig).insert(key@, value));
                }
                return ;
            }
            i = i + 1;
        }
        self.entries.push((key.to_owned(), value));
        proof {
            assert(self.entries@.drop_last() =~= orig);
        }
    }
}

} // verus!
