//! Cache-key derivation: a request's fingerprint is the lowercase hex SHA-256
//! digest of a canonical byte sequence built from the URI and the request
//! headers that are not in the configured ignore set. Header order and header
//! name case never influence the fingerprint.

use vstd::prelude::*;

verus! {

use vstd::relations::{sorted_by, total_ordering};
use vstd::seq_lib::lemma_sorted_unique;
use vstd::seq_lib::lemma_multiset_commutative;
use vstd::string::StringSliceAdditionalSpecFns;
use vstd::utf8::encode_utf8;
use vstd::multiset::Multiset;
use crate::text::{lower_bytes, lower_bytes_of, bytes_eq};

/// The lowercase hex encoding of the SHA-256 digest of a byte sequence.
/// Names what sha2 computes; it depends on the bytes alone.
pub uninterp spec fn sha256_hex_of(data: Seq<u8>) -> Seq<char>;

/// Relies on sha2::Sha256: the digest depends on the hashed bytes alone, and
/// its lowercase hex form is 64 characters long.
#[verifier::external_body]
fn sha256_hex(data: &[u8]) -> (r: String)
    ensures
        r@ == sha256_hex_of(data@),
        r@.len() == 64,
{
    let mut hasher = <sha2::Sha256 as sha2::Digest>::new();
    sha2::Digest::update(&mut hasher, data);
    format!("{:x}", sha2::Digest::finalize(hasher))
}

/// Lexicographic order on byte sequences.
pub open spec fn bytes_le(a: Seq<u8>, b: Seq<u8>) -> bool
    decreases a.len(),
{
    if a.len() == 0 {
        true
    } else if b.len() == 0 {
        false
    } else if a[0] < b[0] {
        true
    } else if a[0] > b[0] {
        false
    } else {
        bytes_le(a.drop_first(), b.drop_first())
    }
}

/// Order on header pairs: by name, then by value.
pub open spec fn pair_le(x: (Seq<u8>, Seq<u8>), y: (Seq<u8>, Seq<u8>)) -> bool {
    if x.0 != y.0 {
        bytes_le(x.0, y.0)
    } else {
        bytes_le(x.1, y.1)
    }
}

/// The pair order as a function value, for sorting.
pub open spec fn pair_le_order() -> spec_fn((Seq<u8>, Seq<u8>), (Seq<u8>, Seq<u8>)) -> bool {
    |x: (Seq<u8>, Seq<u8>), y: (Seq<u8>, Seq<u8>)| pair_le(x, y)
}

proof fn lemma_bytes_le_connected(a: Seq<u8>, b: Seq<u8>)
    ensures
        bytes_le(a, b) || bytes_le(b, a),
        bytes_le(a, b) && bytes_le(b, a) ==> a == b,
    decreases a.len(),
{
    if a.len() == 0 {
        if bytes_le(b, a) {
            assert(a =~= b);
        }
    } else if b.len() == 0 {
    } else if a[0] == b[0] {
        lemma_bytes_le_connected(a.drop_first(), b.drop_first());
        if bytes_le(a, b) && bytes_le(b, a) {
            assert(a.drop_first() == b.drop_first());
            assert(a =~= seq![a[0]] + a.drop_first());
            assert(b =~= seq![b[0]] + b.drop_first());
        }
    }
}

proof fn lemma_bytes_le_trans(a: Seq<u8>, b: Seq<u8>, c: Seq<u8>)
    requires
        bytes_le(a, b),
        bytes_le(b, c),
    ensures
        bytes_le(a, c),
    decreases a.len(),
{
    if a.len() == 0 || b.len() == 0 || c.len() == 0 {
    } else if a[0] == b[0] && b[0] == c[0] {
        lemma_bytes_le_trans(a.drop_first(), b.drop_first(), c.drop_first());
    }
}

/// The header-pair order is a total ordering, so sorting by it puts any
/// multiset of pairs into exactly one sequence.
pub proof fn lemma_pair_le_total_ordering()
    ensures
        total_ordering(pair_le_order()),
{
    let leq = pair_le_order();
    assert forall|x: (Seq<u8>, Seq<u8>)| #[trigger] leq(x, x) by {
        lemma_bytes_le_connected(x.1, x.1);
    }
    assert forall|x: (Seq<u8>, Seq<u8>), y: (Seq<u8>, Seq<u8>)|
        #[trigger] leq(x, y) && #[trigger] leq(y, x) implies x == y by {
        lemma_bytes_le_connected(x.0, y.0);
        lemma_bytes_le_connected(x.1, y.1);
    }
    assert forall|x: (Seq<u8>, Seq<u8>), y: (Seq<u8>, Seq<u8>), z: (Seq<u8>, Seq<u8>)|
        #[trigger] leq(x, y) && #[trigger] leq(y, z) implies leq(x, z) by {
        if x.0 != y.0 && y.0 != z.0 {
            lemma_bytes_le_trans(x.0, y.0, z.0);
            if x.0 == z.0 {
                lemma_bytes_le_connected(x.0, y.0);
                lemma_bytes_le_connected(y.0, z.0);
            }
        } else if x.0 == y.0 && y.0 == z.0 {
            lemma_bytes_le_trans(x.1, y.1, z.1);
        }
    }
    assert forall|x: (Seq<u8>, Seq<u8>), y: (Seq<u8>, Seq<u8>)|
        #[trigger] leq(x, y) || #[trigger] leq(y, x) by {
        lemma_bytes_le_connected(x.0, y.0);
        lemma_bytes_le_connected(x.1, y.1);
    }
}

/// The byte form of a header list.
pub open spec fn header_bytes(headers: Seq<(String, String)>) -> Seq<(Seq<u8>, Seq<u8>)> {
    headers.map_values(|p: (String, String)| (encode_utf8(p.0@), encode_utf8(p.1@)))
}

/// The byte form of the ignored-header set, case-folded.
pub open spec fn ignored_bytes(ignored: Seq<String>) -> Set<Seq<u8>> {
    ignored.map_values(|s: String| lower_bytes(encode_utf8(s@))).to_set()
}

/// The headers that influence a fingerprint: names case-folded, and pairs
/// whose folded name sits in the ignore set dropped.
pub open spec fn canon_pairs(headers: Seq<(Seq<u8>, Seq<u8>)>, ignored: Set<Seq<u8>>) -> Seq<
    (Seq<u8>, Seq<u8>),
> {
    headers.map_values(|p: (Seq<u8>, Seq<u8>)| (lower_bytes(p.0), p.1)).filter(
        |p: (Seq<u8>, Seq<u8>)| !ignored.contains(p.0),
    )
}

/// One canonical pair as `name:value`.
pub open spec fn pair_item(p: (Seq<u8>, Seq<u8>)) -> Seq<u8> {
    p.0 + seq![58u8] + p.1
}

/// The canonical pairs joined as `name:value` runs separated by `;`.
pub open spec fn joined(pairs: Seq<(Seq<u8>, Seq<u8>)>) -> Seq<u8>
    decreases pairs.len(),
{
    if pairs.len() == 0 {
        Seq::empty()
    } else if pairs.len() == 1 {
        pair_item(pairs[0])
    } else {
        joined(pairs.drop_last()) + seq![59u8] + pair_item(pairs.last())
    }
}

/// The canonical byte sequence a fingerprint digests:
/// `uri | sorted-canonical-headers`.
pub open spec fn key_source_bytes(
    uri: Seq<u8>,
    headers: Seq<(Seq<u8>, Seq<u8>)>,
    ignored: Set<Seq<u8>>,
) -> Seq<u8> {
    uri + seq![124u8] + joined(canon_pairs(headers, ignored).sort_by(pair_le_order()))
}

/// The fingerprint of a request.
pub open spec fn fingerprint_of(
    uri: Seq<u8>,
    headers: Seq<(Seq<u8>, Seq<u8>)>,
    ignored: Set<Seq<u8>>,
) -> Seq<char> {
    sha256_hex_of(key_source_bytes(uri, headers, ignored))
}

/// The views of a vector of byte-pair buffers.
pub open spec fn pairs_view(s: Seq<(Vec<u8>, Vec<u8>)>) -> Seq<(Seq<u8>, Seq<u8>)> {
    s.map_values(|p: (Vec<u8>, Vec<u8>)| (p.0@, p.1@))
}

/// Whether a case-folded header name sits in the ignore set.
fn is_ignored(name_folded: &[u8], ignored: &Vec<String>) -> (r: bool)
    ensures
        r == ignored_bytes(ignored@).contains(name_folded@),
{
    let n = ignored.len();
    let mut i: usize = 0;
    while i < n
        invariant
            n == ignored@.len(),
            i <= n,
            forall|j: int|
                0 <= j < i ==> lower_bytes(encode_utf8(#[trigger] ignored@[j]@)) != name_folded@,
        decreases n - i,
    {
        let entry = lower_bytes_of(ignored[i].as_str().as_bytes());
        if bytes_eq(entry.as_slice(), name_folded) {
            proof {
                let mapped = ignored@.map_values(|s: String| lower_bytes(encode_utf8(s@)));
                assert(mapped[i as int] == name_folded@);
                assert(mapped.contains(name_folded@));
            }
            return true;
        }
        i = i + 1;
    }
    proof {
        let mapped = ignored@.map_values(|s: String| lower_bytes(encode_utf8(s@)));
        assert forall|j: int| 0 <= j < mapped.len() implies mapped[j] != name_folded@ by {
            assert(mapped[j] == lower_bytes(encode_utf8(ignored@[j]@)));
        }
        assert(!mapped.contains(name_folded@));
    }
    false
}

/// The case-folded, filtered header pairs of a request.
fn collect_canon_pairs(headers: &Vec<(String, String)>, ignored: &Vec<String>) -> (r: Vec<
    (Vec<u8>, Vec<u8>),
>)
    ensures
        pairs_view(r@) == canon_pairs(header_bytes(headers@), ignored_bytes(ignored@)),
{
    let ghost ign = ignored_bytes(ignored@);
    let n = headers.len();
    let mut out: Vec<(Vec<u8>, Vec<u8>)> = Vec::new();
    proof {
        reveal(Seq::filter);
        assert(headers@.take(0) =~= Seq::<(String, String)>::empty());
        assert(pairs_view(out@) =~= canon_pairs(header_bytes(headers@.take(0)), ign));
    }
    let mut i: usize = 0;
    while i < n
        invariant
            n == headers@.len(),
            i <= n,
            ign == ignored_bytes(ignored@),
            pairs_view(out@) == canon_pairs(header_bytes(headers@.take(i as int)), ign),
        decreases n - i,
    {
        let folded = lower_bytes_of(headers[i].0.as_str().as_bytes());
        let keep = !is_ignored(folded.as_slice(), ignored);
        let ghost prev = out@;
        if keep {
            let value = vstd::slice::slice_to_vec(headers[i].1.as_str().as_bytes());
            out.push((folded, value));
        }
        proof {
            reveal(Seq::filter);
            let mapped_prev = header_bytes(headers@.take(i as int)).map_values(
                |p: (Seq<u8>, Seq<u8>)| (lower_bytes(p.0), p.1),
            );
            let mapped_now = header_bytes(headers@.take(i + 1)).map_values(
                |p: (Seq<u8>, Seq<u8>)| (lower_bytes(p.0), p.1),
            );
            let hp = (lower_bytes(encode_utf8(headers@[i as int].0@)), encode_utf8(
                headers@[i as int].1@,
            ));
            assert(headers@.take(i + 1).drop_last() =~= headers@.take(i as int));
            assert(mapped_now =~= mapped_prev.push(hp));
            assert(mapped_now.drop_last() =~= mapped_prev);
            if keep {
                assert(pairs_view(out@) =~= pairs_view(prev).push((hp.0, hp.1)));
            }
            assert(pairs_view(out@) =~= canon_pairs(header_bytes(headers@.take(i + 1)), ign));
        }
        i = i + 1;
    }
    proof {
        assert(headers@.take(n as int) =~= headers@);
    }
    out
}

/// Whether one header pair sorts at or before another: by name, then value.
fn pair_le_exec(x: &(Vec<u8>, Vec<u8>), y: &(Vec<u8>, Vec<u8>)) -> (r: bool)
    ensures
        r == pair_le((x.0@, x.1@), (y.0@, y.1@)),
{
    if bytes_eq(x.0.as_slice(), y.0.as_slice()) {
        bytes_le_exec(x.1.as_slice(), y.1.as_slice())
    } else {
        bytes_le_exec(x.0.as_slice(), y.0.as_slice())
    }
}

/// Lexicographic comparison of byte slices.
fn bytes_le_exec(a: &[u8], b: &[u8]) -> (r: bool)
    ensures
        r == bytes_le(a@, b@),
{
    let an = a.len();
    let bn = b.len();
    proof {
        assert(a@.skip(0) =~= a@);
        assert(b@.skip(0) =~= b@);
    }
    let mut i: usize = 0;
    while i < an && i < bn
        invariant
            an == a@.len(),
            bn == b@.len(),
            i <= an,
            i <= bn,
            bytes_le(a@, b@) == bytes_le(a@.skip(i as int), b@.skip(i as int)),
            forall|j: int| 0 <= j < i ==> a@[j] == b@[j],
        decreases an - i,
    {
        proof {
            assert(a@.skip(i as int)[0] == a@[i as int]);
            assert(b@.skip(i as int)[0] == b@[i as int]);
        }
        if a[i] < b[i] {
            return true;
        }
        if a[i] > b[i] {
            return false;
        }
        proof {
            assert(a@.skip(i as int).drop_first() =~= a@.skip(i + 1));
            assert(b@.skip(i as int).drop_first() =~= b@.skip(i + 1));
        }
        i = i + 1;
    }
    proof {
        if i >= an {
            assert(a@.skip(i as int).len() == 0);
        } else {
            assert(b@.skip(i as int).len() == 0);
        }
    }
    i >= an
}

proof fn lemma_insert_to_multiset(s: Seq<(Seq<u8>, Seq<u8>)>, i: int, x: (Seq<u8>, Seq<u8>))
    requires
        0 <= i <= s.len(),
    ensures
        s.insert(i, x).to_multiset() =~= s.to_multiset().insert(x),
{
    broadcast use vstd::seq_lib::group_to_multiset_ensures;

    assert(s.insert(i, x) =~= s.take(i).push(x) + s.skip(i));
    assert(s =~= s.take(i) + s.skip(i));
    lemma_multiset_commutative(s.take(i).push(x), s.skip(i));
    lemma_multiset_commutative(s.take(i), s.skip(i));
    assert(s.take(i).push(x).to_multiset() =~= s.take(i).to_multiset().insert(x));
}

/// Sorts the canonical pairs by name, then value.
fn sort_pairs(input: Vec<(Vec<u8>, Vec<u8>)>) -> (r: Vec<(Vec<u8>, Vec<u8>)>)
    ensures
        pairs_view(r@) == pairs_view(input@).sort_by(pair_le_order()),
{
    let ghost leq = pair_le_order();
    proof {
        lemma_pair_le_total_ordering();
        pairs_view(input@).lemma_sort_by_ensures(leq);
    }
    let ghost target = pairs_view(input@).sort_by(leq);
    let mut rest = input;
    let mut out: Vec<(Vec<u8>, Vec<u8>)> = Vec::new();
    proof {
        broadcast use vstd::seq_lib::group_to_multiset_ensures;
        broadcast use vstd::multiset::group_multiset_axioms;

        assert(pairs_view(out@) =~= Seq::empty());
        assert(pairs_view(out@).to_multiset().len() == 0);
        assert(pairs_view(out@).to_multiset() =~= Multiset::empty());
        assert(pairs_view(rest@) =~= pairs_view(input@));
        assert(pairs_view(out@).to_multiset().add(pairs_view(rest@).to_multiset()) =~= target.to_multiset());
    }
    while rest.len() > 0
        invariant
            leq == pair_le_order(),
            total_ordering(leq),
            sorted_by(pairs_view(out@), leq),
            pairs_view(out@).to_multiset().add(pairs_view(rest@).to_multiset())
                == target.to_multiset(),
        decreases rest.len(),
    {
        let ghost rest_before = rest@;
        let e = rest.remove(0);
        proof {
            broadcast use vstd::seq_lib::group_to_multiset_ensures;

            assert(rest@ =~= rest_before.drop_first());
            assert(pairs_view(rest_before).remove(0) =~= pairs_view(rest@));
            assert(pairs_view(rest_before).to_multiset() =~= pairs_view(rest@).to_multiset().insert(
                (e.0@, e.1@),
            )) by {
                assert(pairs_view(rest_before)[0] == (e.0@, e.1@));
                assert(pairs_view(rest_before).remove(0).to_multiset() =~= pairs_view(
                    rest_before,
                ).to_multiset().remove((e.0@, e.1@)));
            }
        }
        let n = out.len();
        let mut idx: usize = 0;
        while idx < n && !pair_le_exec(&e, &out[idx])
            invariant
                n == out@.len(),
                idx <= n,
                forall|j: int|
                    0 <= j < idx ==> #[trigger] leq(pairs_view(out@)[j], (e.0@, e.1@)),
                leq == pair_le_order(),
            decreases n - idx,
        {
            proof {
                lemma_bytes_le_connected(out@[idx as int].0@, e.0@);
                lemma_bytes_le_connected(out@[idx as int].1@, e.1@);
                assert(leq(pairs_view(out@)[idx as int], (e.0@, e.1@)));
            }
            idx = idx + 1;
        }
        let ghost out_before = out@;
        out.insert(idx, e);
        proof {
            assert(pairs_view(out@) =~= pairs_view(out_before).insert(idx as int, (e.0@, e.1@)));
            lemma_insert_to_multiset(pairs_view(out_before), idx as int, (e.0@, e.1@));
            let ov = pairs_view(out_before);
            let nv = pairs_view(out@);
            assert forall|p: int, q: int| 0 <= p < q < nv.len() implies leq(nv[p], nv[q]) by {
                if q < idx {
                    assert(nv[p] == ov[p] && nv[q] == ov[q]);
                } else if p < idx && q == idx {
                    assert(nv[p] == ov[p] && nv[q] == (e.0@, e.1@));
                } else if p < idx && q > idx {
                    assert(nv[p] == ov[p] && nv[q] == ov[q - 1]);
                } else if p == idx {
                    assert(nv[p] == (e.0@, e.1@) && nv[q] == ov[q - 1]);
                    if q - 1 > idx {
                        assert(leq(ov[idx as int], ov[q - 1]));
                        assert(leq(nv[p], ov[idx as int]));
                    }
                } else {
                    assert(nv[p] == ov[p - 1] && nv[q] == ov[q - 1]);
                }
            }
        }
    }
    proof {
        assert(pairs_view(rest@).to_multiset() =~= Multiset::empty()) by {
            broadcast use vstd::seq_lib::group_to_multiset_ensures;

            assert(pairs_view(rest@) =~= Seq::empty());
        }
        assert(pairs_view(out@).to_multiset() =~= target.to_multiset()) by {
            broadcast use vstd::multiset::group_multiset_axioms;
        }
        lemma_sorted_unique(pairs_view(out@), target, leq);
    }
    out
}

/// Appends a byte run to a buffer.
fn append_bytes(out: &mut Vec<u8>, s: &[u8])
    ensures
        final(out)@ == old(out)@ + s@,
{
    out.extend_from_slice(s);
}

/// Joins the sorted canonical pairs as `name:value` runs separated by `;`.
fn join_pairs(pairs: &Vec<(Vec<u8>, Vec<u8>)>) -> (r: Vec<u8>)
    ensures
        r@ == joined(pairs_view(pairs@)),
{
    let n = pairs.len();
    let mut out: Vec<u8> = Vec::new();
    proof {
        assert(pairs_view(pairs@.take(0)) =~= Seq::empty());
        assert(out@ =~= joined(pairs_view(pairs@.take(0))));
    }
    let mut i: usize = 0;
    while i < n
        invariant
            n == pairs@.len(),
            i <= n,
            out@ == joined(pairs_view(pairs@.take(i as int))),
        decreases n - i,
    {
        if i > 0 {
            out.push(59);
        }
        append_bytes(&mut out, pairs[i].0.as_slice());
        out.push(58);
        append_bytes(&mut out, pairs[i].1.as_slice());
        proof {
            let pv_now = pairs_view(pairs@.take(i + 1));
            assert(pairs@.take(i + 1).drop_last() =~= pairs@.take(i as int));
            assert(pv_now.drop_last() =~= pairs_view(pairs@.take(i as int)));
            assert(pv_now.last() == (pairs@[i as int].0@, pairs@[i as int].1@));
            if i == 0 {
                assert(out@ =~= pair_item(pv_now[0]));
            } else {
                assert(out@ =~= joined(pv_now.drop_last()) + seq![59u8] + pair_item(pv_now.last()));
            }
        }
        i = i + 1;
    }
    proof {
        assert(pairs@.take(n as int) =~= pairs@);
    }
    out
}

/// Derives the cache fingerprint of a request: the lowercase hex SHA-256 of
/// the canonical `uri | sorted-filtered-headers` byte sequence.
pub fn fingerprint(uri: &str, headers: &Vec<(String, String)>, ignored: &Vec<String>) -> (r: String)
    ensures
        r@ == fingerprint_of(encode_utf8(uri@), header_bytes(headers@), ignored_bytes(ignored@)),
        r@.len() == 64,
{
    let canon = collect_canon_pairs(headers, ignored);
    let sorted = sort_pairs(canon);
    let joined_bytes = join_pairs(&sorted);
    let mut key: Vec<u8> = Vec::new();
    append_bytes(&mut key, uri.as_bytes());
    key.push(124);
    append_bytes(&mut key, joined_bytes.as_slice());
    proof {
        assert(key@ =~= encode_utf8(uri@) + seq![124u8] + joined_bytes@);
    }
    sha256_hex(key.as_slice())
}

/// The header pairs with their names case-folded, before filtering.
pub open spec fn folded_pairs(headers: Seq<(Seq<u8>, Seq<u8>)>) -> Seq<(Seq<u8>, Seq<u8>)> {
    headers.map_values(|p: (Seq<u8>, Seq<u8>)| (lower_bytes(p.0), p.1))
}

proof fn lemma_filter_to_multiset(s: Seq<(Seq<u8>, Seq<u8>)>, p: spec_fn((Seq<u8>, Seq<u8>)) -> bool)
    ensures
        s.filter(p).to_multiset() == s.to_multiset().filter(p),
    decreases s.len(),
{
    broadcast use vstd::seq_lib::group_to_multiset_ensures;
    broadcast use vstd::multiset::group_multiset_axioms;

    reveal(Seq::filter);
    if s.len() == 0 {
        assert(s.filter(p).to_multiset().len() == 0);
        assert forall|v: (Seq<u8>, Seq<u8>)|
            #[trigger] s.to_multiset().filter(p).count(v) == 0 by {
            assert(s.to_multiset().count(v) == 0);
        }
        assert(s.filter(p).to_multiset() =~= s.to_multiset().filter(p));
    } else {
        let dl = s.drop_last();
        let last = s.last();
        lemma_filter_to_multiset(dl, p);
        assert(s =~= dl.push(last));
        assert(s.to_multiset() =~= dl.to_multiset().insert(last));
        assert forall|v: (Seq<u8>, Seq<u8>)|
            #[trigger] s.filter(p).to_multiset().count(v) == s.to_multiset().filter(p).count(
                v,
            ) by {
            if p(last) {
                assert(s.filter(p) =~= dl.filter(p).push(last));
                assert(s.filter(p).to_multiset() =~= dl.filter(p).to_multiset().insert(last));
            } else {
                assert(s.filter(p) =~= dl.filter(p));
            }
        }
        assert(s.filter(p).to_multiset() =~= s.to_multiset().filter(p));
    }
}

/// Law: two requests with the same URI and the same ignore set whose header
/// lists differ only in order or in the case of header names produce equal
/// fingerprints. Header lists that differ only so have, pair for pair, equal
/// multisets once names are case-folded.
pub proof fn lemma_fingerprint_order_and_case_invariant(
    uri: Seq<u8>,
    h1: Seq<(Seq<u8>, Seq<u8>)>,
    h2: Seq<(Seq<u8>, Seq<u8>)>,
    ignored: Set<Seq<u8>>,
)
    requires
        folded_pairs(h1).to_multiset() == folded_pairs(h2).to_multiset(),
    ensures
        fingerprint_of(uri, h1, ignored) == fingerprint_of(uri, h2, ignored),
{
    let p = |q: (Seq<u8>, Seq<u8>)| !ignored.contains(q.0);
    let leq = pair_le_order();
    lemma_filter_to_multiset(folded_pairs(h1), p);
    lemma_filter_to_multiset(folded_pairs(h2), p);
    assert(canon_pairs(h1, ignored) == folded_pairs(h1).filter(p));
    assert(canon_pairs(h2, ignored) == folded_pairs(h2).filter(p));
    lemma_pair_le_total_ordering();
    canon_pairs(h1, ignored).lemma_sort_by_ensures(leq);
    canon_pairs(h2, ignored).lemma_sort_by_ensures(leq);
    lemma_sorted_unique(
        canon_pairs(h1, ignored).sort_by(leq),
        canon_pairs(h2, ignored).sort_by(leq),
        leq,
    );
    assert(canon_pairs(h1, ignored).sort_by(leq) == canon_pairs(h2, ignored).sort_by(leq));
}

proof fn lemma_filter_insert_dropped(
    s: Seq<(Seq<u8>, Seq<u8>)>,
    i: int,
    x: (Seq<u8>, Seq<u8>),
    p: spec_fn((Seq<u8>, Seq<u8>)) -> bool,
)
    requires
        0 <= i <= s.len(),
        !p(x),
    ensures
        s.insert(i, x).filter(p) == s.filter(p),
    decreases s.len(),
{
    reveal(Seq::filter);
    let t = s.insert(i, x);
    if i == s.len() {
        assert(t.drop_last() =~= s);
        assert(t.last() == x);
    } else {
        assert(t.drop_last() =~= s.drop_last().insert(i, x));
        assert(t.last() == s.last());
        lemma_filter_insert_dropped(s.drop_last(), i, x, p);
    }
}

/// Law: inserting a header whose case-folded name sits in the ignore set
/// anywhere in the list leaves the fingerprint unchanged; so, read the other
/// way, removing such a header leaves it unchanged too.
pub proof fn lemma_ignored_header_no_influence(
    uri: Seq<u8>,
    headers: Seq<(Seq<u8>, Seq<u8>)>,
    i: int,
    extra: (Seq<u8>, Seq<u8>),
    ignored: Set<Seq<u8>>,
)
    requires
        0 <= i <= headers.len(),
        ignored.contains(lower_bytes(extra.0)),
    ensures
        fingerprint_of(uri, headers.insert(i, extra), ignored) == fingerprint_of(
            uri,
            headers,
            ignored,
        ),
{
    let p = |q: (Seq<u8>, Seq<u8>)| !ignored.contains(q.0);
    let fold = |q: (Seq<u8>, Seq<u8>)| (lower_bytes(q.0), q.1);
    assert(folded_pairs(headers.insert(i, extra)) =~= folded_pairs(headers).insert(
        i,
        (lower_bytes(extra.0), extra.1),
    ));
    lemma_filter_insert_dropped(folded_pairs(headers), i, (lower_bytes(extra.0), extra.1), p);
    assert(canon_pairs(headers.insert(i, extra), ignored) == canon_pairs(headers, ignored));
}

/// Returns a SHA-256 hash string for a URI or key-source string.
pub fn hash_uri(uri: &str) -> (r: String)
    ensures
        r@ == sha256_hex_of(encode_utf8(uri@)),
        r@.len() == 64,
{
    sha256_hex(uri.as_bytes())
}

} // verus!
