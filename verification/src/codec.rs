//! The durable-record codec. A cached response is persisted as the JSON
//! object `{"body":<base64>,"headers":[[k,v],...]}`, gzip-compressed for the
//! backends that take a single blob; one backend stores the gzipped body and
//! a gzipped JSON header list as a pair instead. Encoding and parsing of the
//! record text are verified; base64 and gzip are the storage crates' work.

use vstd::prelude::*;

verus! {

use crate::fingerprint::pairs_view;
use crate::text::headers_view;
use vstd::utf8::{encode_utf8, decode_utf8, valid_utf8};

/// The lowercase hex digit for a value below 16.
pub open spec fn hex_digit(n: u8) -> u8 {
    if n < 10 {
        (n + 48) as u8
    } else {
        (n + 87) as u8
    }
}

/// The JSON escape of one byte: quote and backslash get a backslash, the
/// named control characters their short forms, other control bytes the
/// `\u00XX` form, and everything else stands for itself.
pub open spec fn esc_byte(b: u8) -> Seq<u8> {
    if b == 34 {
        seq![92u8, 34u8]
    } else if b == 92 {
        seq![92u8, 92u8]
    } else if b == 8 {
        seq![92u8, 98u8]
    } else if b == 12 {
        seq![92u8, 102u8]
    } else if b == 10 {
        seq![92u8, 110u8]
    } else if b == 13 {
        seq![92u8, 114u8]
    } else if b == 9 {
        seq![92u8, 116u8]
    } else if b < 32 {
        seq![92u8, 117u8, 48u8, 48u8, hex_digit(b / 16), hex_digit(b % 16)]
    } else {
        seq![b]
    }
}

/// The JSON escape of a byte run.
pub open spec fn esc(s: Seq<u8>) -> Seq<u8>
    decreases s.len(),
{
    if s.len() == 0 {
        Seq::empty()
    } else {
        esc_byte(s[0]) + esc(s.drop_first())
    }
}

/// One header pair as the JSON array `["k","v"]`.
pub open spec fn hdr_item(p: (Seq<u8>, Seq<u8>)) -> Seq<u8> {
    seq![91u8, 34u8] + esc(p.0) + seq![34u8, 44u8, 34u8] + esc(p.1) + seq![34u8, 93u8]
}

/// The header pairs as comma-separated JSON arrays.
pub open spec fn hdr_inner(hs: Seq<(Seq<u8>, Seq<u8>)>) -> Seq<u8>
    decreases hs.len(),
{
    if hs.len() == 0 {
        Seq::empty()
    } else if hs.len() == 1 {
        hdr_item(hs[0])
    } else {
        hdr_item(hs[0]) + seq![44u8] + hdr_inner(hs.drop_first())
    }
}

/// The record's opening run: `{"body":"`.
pub open spec fn record_pre() -> Seq<u8> {
    seq![123u8, 34u8, 98u8, 111u8, 100u8, 121u8, 34u8, 58u8, 34u8]
}

/// The run between the body string and the header list: `,"headers":[`.
pub open spec fn record_mid() -> Seq<u8> {
    seq![44u8, 34u8, 104u8, 101u8, 97u8, 100u8, 101u8, 114u8, 115u8, 34u8, 58u8, 91u8]
}

/// The full record text for a base64 body and a header list.
pub open spec fn record_bytes(b64: Seq<u8>, hs: Seq<(Seq<u8>, Seq<u8>)>) -> Seq<u8> {
    record_pre() + esc(b64) + seq![34u8] + record_mid() + hdr_inner(hs) + seq![93u8, 125u8]
}

/// The JSON text for a bare header list, as the paired backend stores it:
/// `[[k,v],...]`.
pub open spec fn hdr_list_bytes(hs: Seq<(Seq<u8>, Seq<u8>)>) -> Seq<u8> {
    seq![91u8] + hdr_inner(hs) + seq![93u8]
}

/// Appends the JSON escape of `s` to `out`.
fn push_escaped(out: &mut Vec<u8>, s: &[u8])
    ensures
        final(out)@ == old(out)@ + esc(s@),
{
    let n = s.len();
    proof {
        assert(s@.skip(0) =~= s@);
        assert(esc(s@.take(0)) =~= Seq::<u8>::empty());
        assert(out@ =~= out@ + esc(s@.take(0)));
    }
    let mut i: usize = 0;
    while i < n
        invariant
            n == s@.len(),
            i <= n,
            out@ == old(out)@ + esc(s@.take(i as int)),
        decreases n - i,
    {
        let b = s[i];
        if b == 34 {
            out.push(92);
            out.push(34);
        } else if b == 92 {
            out.push(92);
            out.push(92);
        } else if b == 8 {
            out.push(92);
            out.push(98);
        } else if b == 12 {
            out.push(92);
            out.push(102);
        } else if b == 10 {
            out.push(92);
            out.push(110);
        } else if b == 13 {
            out.push(92);
            out.push(114);
        } else if b == 9 {
            out.push(92);
            out.push(116);
        } else if b < 32 {
            out.push(92);
            out.push(117);
            out.push(48);
            out.push(48);
            let hi = b / 16;
            let lo = b % 16;
            out.push(if hi < 10 {
                hi + 48
            } else {
                hi + 87
            });
            out.push(if lo < 10 {
                lo + 48
            } else {
                lo + 87
            });
        } else {
            out.push(b);
        }
        proof {
            lemma_esc_take_step(s@, i as int);
        }
        i = i + 1;
    }
    proof {
        assert(s@.take(n as int) =~= s@);
    }
}

proof fn lemma_esc_take_step(s: Seq<u8>, i: int)
    requires
        0 <= i < s.len(),
    ensures
        esc(s.take(i + 1)) == esc(s.take(i)) + esc_byte(s[i]),
    decreases i,
{
    if i == 0 {
        assert(s.take(1) =~= seq![s[0]]);
        assert(seq![s[0]].drop_first() =~= Seq::<u8>::empty());
        assert(esc(seq![s[0]]) =~= esc_byte(s[0]) + esc(Seq::<u8>::empty()));
        assert(esc(s.take(0)) =~= Seq::<u8>::empty());
        assert(esc(s.take(1)) =~= esc(s.take(0)) + esc_byte(s[0]));
    } else {
        lemma_esc_take_step(s.drop_first(), i - 1);
        assert(s.take(i + 1).drop_first() =~= s.drop_first().take(i));
        assert(s.take(i).drop_first() =~= s.drop_first().take(i - 1));
        assert(s.take(i + 1)[0] == s[0]);
        assert(s.take(i)[0] == s[0]);
        assert(esc(s.take(i + 1)) =~= esc_byte(s[0]) + esc(s.drop_first().take(i)));
        assert(esc(s.take(i)) =~= esc_byte(s[0]) + esc(s.drop_first().take(i - 1)));
        assert(s.drop_first()[i - 1] == s[i]);
        assert(esc(s.take(i + 1)) =~= esc(s.take(i)) + esc_byte(s[i]));
    }
}

/// Writes the comma-separated header items of `hs` to `out`.
#[verifier::rlimit(50)]
fn push_hdr_inner(out: &mut Vec<u8>, hs: &Vec<(Vec<u8>, Vec<u8>)>)
    ensures
        final(out)@ == old(out)@ + hdr_inner(pairs_view(hs@)),
{
    let n = hs.len();
    proof {
        assert(pairs_view(hs@.take(0)) =~= Seq::<(Seq<u8>, Seq<u8>)>::empty());
        assert(out@ =~= out@ + hdr_inner(pairs_view(hs@.take(0))));
    }
    let mut i: usize = 0;
    while i < n
        invariant
            n == hs@.len(),
            i <= n,
            out@ == old(out)@ + hdr_inner(pairs_view(hs@.take(i as int))),
        decreases n - i,
    {
        if i > 0 {
            out.push(44);
        }
        out.push(91);
        out.push(34);
        push_escaped(out, hs[i].0.as_slice());
        out.push(34);
        out.push(44);
        out.push(34);
        push_escaped(out, hs[i].1.as_slice());
        out.push(34);
        out.push(93);
        proof {
            let pv = pairs_view(hs@.take(i + 1));
            let prev = pairs_view(hs@.take(i as int));
            assert(hs@.take(i + 1) =~= hs@.take(i as int).push(hs@[i as int]));
            assert(pv =~= prev.push((hs@[i as int].0@, hs@[i as int].1@)));
            lemma_hdr_inner_snoc(pv, prev, (hs@[i as int].0@, hs@[i as int].1@));
        }
        i = i + 1;
    }
    proof {
        assert(hs@.take(n as int) =~= hs@);
    }
}

proof fn lemma_hdr_inner_snoc(
    pv: Seq<(Seq<u8>, Seq<u8>)>,
    prev: Seq<(Seq<u8>, Seq<u8>)>,
    last: (Seq<u8>, Seq<u8>),
)
    requires
        pv == prev.push(last),
    ensures
        pv.len() > 1 ==> hdr_inner(pv) == hdr_inner(prev) + seq![44u8] + hdr_item(last),
        pv.len() == 1 ==> hdr_inner(pv) == hdr_item(last),
    decreases pv.len(),
{
    if pv.len() == 1 {
        assert(pv[0] == last);
    } else if pv.len() == 2 {
        assert(pv.drop_first() =~= seq![last]);
        assert(hdr_inner(pv) == hdr_item(pv[0]) + seq![44u8] + hdr_inner(pv.drop_first()));
        assert(prev =~= seq![pv[0]]);
    } else {
        assert(pv.drop_first() =~= prev.drop_first().push(last));
        lemma_hdr_inner_snoc(pv.drop_first(), prev.drop_first(), last);
        assert(pv[0] == prev[0]);
    }
}

/// Builds the record text for an already base64-encoded body and a header
/// list.
fn build_record_text(b64: &[u8], headers: &Vec<(Vec<u8>, Vec<u8>)>) -> (r: Vec<u8>)
    ensures
        r@ == record_bytes(b64@, pairs_view(headers@)),
{
    let mut out: Vec<u8> = Vec::new();
    out.push(123);
    out.push(34);
    out.push(98);
    out.push(111);
    out.push(100);
    out.push(121);
    out.push(34);
    out.push(58);
    out.push(34);
    proof {
        assert(out@ =~= record_pre());
    }
    push_escaped(&mut out, b64);
    out.push(34);
    out.push(44);
    out.push(34);
    out.push(104);
    out.push(101);
    out.push(97);
    out.push(100);
    out.push(101);
    out.push(114);
    out.push(115);
    out.push(34);
    out.push(58);
    out.push(91);
    proof {
        assert(out@ =~= record_pre() + esc(b64@) + seq![34u8] + record_mid());
    }
    push_hdr_inner(&mut out, headers);
    out.push(93);
    out.push(125);
    proof {
        assert(out@ =~= record_bytes(b64@, pairs_view(headers@)));
    }
    out
}

/// Whether `lit` is a prefix of `data`.
pub open spec fn starts_with(data: Seq<u8>, lit: Seq<u8>) -> bool {
    data.len() >= lit.len() && data.take(lit.len() as int) == lit
}

/// The byte a canonical two-character escape stands for, if the second
/// character forms one.
pub open spec fn short_unesc(b: u8) -> Option<u8> {
    if b == 34 {
        Some(34u8)
    } else if b == 92 {
        Some(92u8)
    } else if b == 98 {
        Some(8u8)
    } else if b == 102 {
        Some(12u8)
    } else if b == 110 {
        Some(10u8)
    } else if b == 114 {
        Some(13u8)
    } else if b == 116 {
        Some(9u8)
    } else {
        None
    }
}

/// The value of a lowercase hex digit.
pub open spec fn hex_val(b: u8) -> Option<u8> {
    if 48 <= b && b <= 57 {
        Some((b - 48) as u8)
    } else if 97 <= b && b <= 102 {
        Some((b - 87) as u8)
    } else {
        None
    }
}

/// Whether a control byte must take the `\u00XX` form because no short
/// escape names it.
pub open spec fn needs_u_escape(b: u8) -> bool {
    b < 32 && b != 8 && b != 12 && b != 10 && b != 13 && b != 9
}

/// Prepends a parsed byte to a parse result, adding the bytes its escape
/// consumed.
pub open spec fn cons_parse(b: u8, rest: Option<(Seq<u8>, int)>, k: int) -> Option<(Seq<u8>, int)> {
    match rest {
        Some(r) => Some((seq![b] + r.0, k + r.1)),
        None => None,
    }
}

/// Parses escaped string content up to and including a closing quote,
/// returning the content and the bytes consumed. Accepts exactly the
/// canonical escapes the encoder writes.
pub open spec fn parse_str(data: Seq<u8>) -> Option<(Seq<u8>, int)>
    decreases data.len(),
{
    if data.len() == 0 {
        None
    } else if data[0] == 34 {
        Some((Seq::empty(), 1))
    } else if data[0] == 92 {
        if data.len() < 2 {
            None
        } else {
            match short_unesc(data[1]) {
                Some(b) => cons_parse(b, parse_str(data.skip(2)), 2),
                None => {
                    if data[1] == 117 && data.len() >= 6 && data[2] == 48 && data[3] == 48 {
                        match (hex_val(data[4]), hex_val(data[5])) {
                            (Some(hi), Some(lo)) => {
                                if needs_u_escape((hi * 16 + lo) as u8) {
                                    cons_parse((hi * 16 + lo) as u8, parse_str(data.skip(6)), 6)
                                } else {
                                    None
                                }
                            },
                            _ => None,
                        }
                    } else {
                        None
                    }
                },
            }
        }
    } else if data[0] < 32 {
        None
    } else {
        cons_parse(data[0], parse_str(data.skip(1)), 1)
    }
}

/// Parses one `["k","v"]` item, returning the pair and the bytes consumed.
pub open spec fn parse_item(data: Seq<u8>) -> Option<((Seq<u8>, Seq<u8>), int)> {
    if data.len() >= 2 && data[0] == 91 && data[1] == 34 {
        match parse_str(data.skip(2)) {
            Some((k, n1)) => {
                let p1: int = 2 + n1;
                if p1 + 2 <= data.len() && data[p1] == 44 && data[p1 + 1] == 34 {
                    match parse_str(data.skip(p1 + 2)) {
                        Some((v, n2)) => {
                            let p2: int = p1 + 2 + n2;
                            if p2 < data.len() && data[p2] == 93 {
                                Some(((k, v), p2 + 1))
                            } else {
                                None
                            }
                        },
                        None => None,
                    }
                } else {
                    None
                }
            },
            None => None,
        }
    } else {
        None
    }
}

/// Parses one or more comma-separated items and the closing `]`, returning
/// the pairs and the bytes consumed.
pub open spec fn parse_items(data: Seq<u8>) -> Option<(Seq<(Seq<u8>, Seq<u8>)>, int)>
    decreases data.len(),
{
    match parse_item(data) {
        Some((p, k)) => {
            if 0 < k && k < data.len() {
                if data[k] == 44 {
                    match parse_items(data.skip(k + 1)) {
                        Some((ps, m)) => Some((seq![p] + ps, k + 1 + m)),
                        None => None,
                    }
                } else if data[k] == 93 {
                    Some((seq![p], k + 1))
                } else {
                    None
                }
            } else {
                None
            }
        },
        None => None,
    }
}

/// Parses a header list after its opening `[`, the closing `]` included.
pub open spec fn parse_hdrs(data: Seq<u8>) -> Option<(Seq<(Seq<u8>, Seq<u8>)>, int)> {
    if data.len() > 0 && data[0] == 93 {
        Some((Seq::empty(), 1))
    } else {
        parse_items(data)
    }
}

/// Parses a whole record text; accepts exactly the texts the encoder
/// produces.
pub open spec fn parse_record(data: Seq<u8>) -> Option<(Seq<u8>, Seq<(Seq<u8>, Seq<u8>)>)> {
    if starts_with(data, record_pre()) {
        match parse_str(data.skip(9)) {
            Some((b64, n)) => {
                let p: int = 9 + n;
                if p + 12 <= data.len() && data.skip(p).take(12) == record_mid() {
                    match parse_hdrs(data.skip(p + 12)) {
                        Some((hs, m)) => {
                            let q: int = p + 12 + m;
                            if q + 1 == data.len() && data[q] == 125 {
                                Some((b64, hs))
                            } else {
                                None
                            }
                        },
                        None => None,
                    }
                } else {
                    None
                }
            },
            None => None,
        }
    } else {
        None
    }
}

proof fn lemma_parse_str_inverts(s: Seq<u8>, rest: Seq<u8>)
    ensures
        parse_str(esc(s) + seq![34u8] + rest) == Some((s, esc(s).len() as int + 1)),
    decreases s.len(),
{
    let d = esc(s) + seq![34u8] + rest;
    if s.len() == 0 {
        assert(esc(s) =~= Seq::<u8>::empty());
        assert(d[0] == 34);
        assert(parse_str(d) == Some((Seq::<u8>::empty(), 1int)));
        assert(s =~= Seq::<u8>::empty());
    } else {
        let c = s[0];
        let s2 = s.drop_first();
        let tail = esc(s2) + seq![34u8] + rest;
        lemma_parse_str_inverts(s2, rest);
        assert(esc(s) == esc_byte(c) + esc(s2));
        assert(d =~= esc_byte(c) + tail);
        assert(seq![c] + s2 =~= s);
        if c == 34 || c == 92 {
            assert(esc_byte(c).len() == 2);
            assert(d[0] == 92);
            assert(short_unesc(d[1]) == Some(c));
            assert(d.skip(2) =~= tail);
        } else if c == 8 || c == 12 || c == 10 || c == 13 || c == 9 {
            assert(esc_byte(c).len() == 2);
            assert(d[0] == 92);
            assert(short_unesc(d[1]) == Some(c));
            assert(d.skip(2) =~= tail);
        } else if c < 32 {
            assert(esc_byte(c).len() == 6);
            assert(d[0] == 92 && d[1] == 117 && d[2] == 48 && d[3] == 48);
            assert(d[4] == hex_digit(c / 16) && d[5] == hex_digit(c % 16));
            assert(hex_val(hex_digit(c / 16)) == Some((c / 16) as u8));
            assert(hex_val(hex_digit(c % 16)) == Some((c % 16) as u8));
            assert((c / 16) * 16 + c % 16 == c) by {
                vstd::arithmetic::div_mod::lemma_fundamental_div_mod(c as int, 16);
            }
            assert(needs_u_escape(c));
            assert(d.skip(6) =~= tail);
        } else {
            assert(esc_byte(c) =~= seq![c]);
            assert(d[0] == c);
            assert(d.skip(1) =~= tail);
        }
    }
}

proof fn lemma_parse_item_inverts(p: (Seq<u8>, Seq<u8>), rest: Seq<u8>)
    ensures
        parse_item(hdr_item(p) + rest) == Some((p, hdr_item(p).len() as int)),
{
    let d = hdr_item(p) + rest;
    assert(d =~= seq![91u8, 34u8] + (esc(p.0) + seq![34u8] + (seq![44u8, 34u8] + esc(p.1) + seq![
        34u8,
    ] + (seq![93u8] + rest))));
    assert(d[0] == 91 && d[1] == 34);
    let tail1 = esc(p.0) + seq![34u8] + (seq![44u8, 34u8] + esc(p.1) + seq![34u8] + (seq![93u8]
        + rest));
    assert(d.skip(2) =~= tail1);
    lemma_parse_str_inverts(p.0, seq![44u8, 34u8] + esc(p.1) + seq![34u8] + (seq![93u8] + rest));
    let n1: int = esc(p.0).len() as int + 1;
    let p1: int = 2 + n1;
    assert(d[p1] == 44 && d[p1 + 1] == 34);
    let tail2 = esc(p.1) + seq![34u8] + (seq![93u8] + rest);
    assert(d.skip(p1 + 2) =~= tail2);
    lemma_parse_str_inverts(p.1, seq![93u8] + rest);
    let n2: int = esc(p.1).len() as int + 1;
    let p2: int = p1 + 2 + n2;
    assert(d[p2] == 93);
    assert(p2 < d.len());
    assert(hdr_item(p).len() == p2 + 1);
}

#[verifier::rlimit(80)]
proof fn lemma_parse_items_inverts(hs: Seq<(Seq<u8>, Seq<u8>)>, rest: Seq<u8>)
    requires
        hs.len() >= 1,
    ensures
        parse_items(hdr_inner(hs) + seq![93u8] + rest) == Some(
            (hs, hdr_inner(hs).len() as int + 1),
        ),
    decreases hs.len(),
{
    let d = hdr_inner(hs) + seq![93u8] + rest;
    if hs.len() == 1 {
        assert(hdr_inner(hs) == hdr_item(hs[0]));
        assert(d =~= hdr_item(hs[0]) + (seq![93u8] + rest));
        lemma_parse_item_inverts(hs[0], seq![93u8] + rest);
        let k: int = hdr_item(hs[0]).len() as int;
        assert(d[k] == 93);
        assert(0 < k && k < d.len());
        assert(seq![hs[0]] =~= hs);
    } else {
        let hs2 = hs.drop_first();
        assert(hdr_inner(hs) == hdr_item(hs[0]) + seq![44u8] + hdr_inner(hs2));
        assert(d =~= hdr_item(hs[0]) + (seq![44u8] + hdr_inner(hs2) + seq![93u8] + rest));
        lemma_parse_item_inverts(hs[0], seq![44u8] + hdr_inner(hs2) + seq![93u8] + rest);
        let k: int = hdr_item(hs[0]).len() as int;
        assert(d[k] == 44);
        assert(0 < k && k < d.len());
        assert(d.skip(k + 1) =~= hdr_inner(hs2) + seq![93u8] + rest);
        lemma_parse_items_inverts(hs2, rest);
        assert(seq![hs[0]] + hs2 =~= hs);
    }
}

/// Law, one half of the storage round trip: the record parser accepts every
/// text the record encoder writes and returns exactly what was encoded.
#[verifier::rlimit(80)]
pub proof fn lemma_parse_record_inverts(b64: Seq<u8>, hs: Seq<(Seq<u8>, Seq<u8>)>)
    ensures
        parse_record(record_bytes(b64, hs)) == Some((b64, hs)),
{
    let d = record_bytes(b64, hs);
    assert(d =~= record_pre() + (esc(b64) + seq![34u8] + (record_mid() + hdr_inner(hs) + seq![
        93u8,
        125u8,
    ])));
    assert(starts_with(d, record_pre())) by {
        assert(d.take(9) =~= record_pre());
    }
    assert(d.skip(9) =~= esc(b64) + seq![34u8] + (record_mid() + hdr_inner(hs) + seq![93u8, 125u8]));
    lemma_parse_str_inverts(b64, record_mid() + hdr_inner(hs) + seq![93u8, 125u8]);
    let n: int = esc(b64).len() as int + 1;
    let p: int = 9 + n;
    assert(d.skip(p) =~= record_mid() + hdr_inner(hs) + seq![93u8, 125u8]);
    assert(d.skip(p).take(12) =~= record_mid());
    assert(p + 12 <= d.len());
    let hd = d.skip(p + 12);
    assert(hd =~= hdr_inner(hs) + seq![93u8] + seq![125u8]);
    if hs.len() == 0 {
        assert(hdr_inner(hs) =~= Seq::<u8>::empty());
        assert(hd[0] == 93);
        assert(parse_hdrs(hd) == Some((Seq::<(Seq<u8>, Seq<u8>)>::empty(), 1int)));
        let q: int = p + 12 + 1;
        assert(d[q] == 125);
        assert(q + 1 == d.len());
        assert(hs =~= Seq::<(Seq<u8>, Seq<u8>)>::empty());
    } else {
        assert(hd[0] == 91 || hd[0] != 93) by {
            assert(hdr_inner(hs).len() > 0) by {
                lemma_hdr_inner_len(hs);
            }
            assert(hd[0] == hdr_inner(hs)[0]);
            assert(hdr_inner(hs)[0] == 91) by {
                lemma_hdr_inner_first(hs);
            }
        }
        lemma_parse_items_inverts(hs, seq![125u8]);
        let m: int = hdr_inner(hs).len() as int + 1;
        let q: int = p + 12 + m;
        assert(d[q] == 125);
        assert(q + 1 == d.len());
    }
}

proof fn lemma_hdr_inner_len(hs: Seq<(Seq<u8>, Seq<u8>)>)
    requires
        hs.len() >= 1,
    ensures
        hdr_inner(hs).len() > 0,
        hdr_inner(hs)[0] == 91,
{
    assert(hdr_item(hs[0])[0] == 91);
    assert(hdr_item(hs[0]).len() >= 7);
}

proof fn lemma_hdr_inner_first(hs: Seq<(Seq<u8>, Seq<u8>)>)
    requires
        hs.len() >= 1,
    ensures
        hdr_inner(hs)[0] == 91,
{
    lemma_hdr_inner_len(hs);
}

proof fn lemma_parse_str_bounds(d: Seq<u8>)
    ensures
        parse_str(d) matches Some(sn) ==> 1 <= sn.1 <= d.len(),
    decreases d.len(),
{
    if d.len() == 0 {
    } else if d[0] == 34 {
    } else if d[0] == 92 {
        if d.len() >= 2 {
            lemma_parse_str_bounds(d.skip(2));
            if d.len() >= 6 {
                lemma_parse_str_bounds(d.skip(6));
            }
        }
    } else {
        lemma_parse_str_bounds(d.skip(1));
    }
}

/// Scans one escaped string from `start` up to and including its closing
/// quote; the byte before `start` is the opening quote.
fn scan_string(data: &[u8], start: usize) -> (r: Option<(Vec<u8>, usize)>)
    requires
        start <= data@.len(),
    ensures
        match parse_str(data@.skip(start as int)) {
            Some(sn) => r matches Some(v) && v.0@ == sn.0 && v.1 == start + sn.1 && v.1
                <= data@.len(),
            None => r is None,
        },
{
    let n = data.len();
    let mut pos = start;
    let mut out: Vec<u8> = Vec::new();
    loop
        invariant
            n == data@.len(),
            start <= pos <= n,
            match parse_str(data@.skip(pos as int)) {
                Some(sn) => (parse_str(data@.skip(start as int)) matches Some(w) && w.0 == out@
                    + sn.0 && w.1 == pos - start + sn.1),
                None => parse_str(data@.skip(start as int)) is None,
            },
        decreases n - pos,
    {
        proof {
            lemma_parse_str_bounds(data@.skip(start as int));
        }
        if pos >= n {
            return None;
        }
        let b = data[pos];
        proof {
            assert(data@.skip(pos as int)[0] == b);
        }
        if b == 34 {
            proof {
                assert(parse_str(data@.skip(pos as int)) == Some((Seq::<u8>::empty(), 1int)));
                assert(out@ + Seq::<u8>::empty() =~= out@);
            }
            return Some((out, pos + 1));
        }
        let c: u8;
        let k: usize;
        if b == 92 {
            if n - pos < 2 {
                return None;
            }
            let e = data[pos + 1];
            proof {
                assert(data@.skip(pos as int)[1] == e);
            }
            if e == 34 {
                c = 34;
                k = 2;
            } else if e == 92 {
                c = 92;
                k = 2;
            } else if e == 98 {
                c = 8;
                k = 2;
            } else if e == 102 {
                c = 12;
                k = 2;
            } else if e == 110 {
                c = 10;
                k = 2;
            } else if e == 114 {
                c = 13;
                k = 2;
            } else if e == 116 {
                c = 9;
                k = 2;
            } else if e == 117 {
                if n - pos < 6 {
                    return None;
                }
                proof {
                    assert(data@.skip(pos as int)[2] == data@[pos + 2]);
                    assert(data@.skip(pos as int)[3] == data@[pos + 3]);
                    assert(data@.skip(pos as int)[4] == data@[pos + 4]);
                    assert(data@.skip(pos as int)[5] == data@[pos + 5]);
                }
                if data[pos + 2] != 48 || data[pos + 3] != 48 {
                    return None;
                }
                let h1 = data[pos + 4];
                let h2 = data[pos + 5];
                let hi: u8 = if 48 <= h1 && h1 <= 57 {
                    h1 - 48
                } else if 97 <= h1 && h1 <= 102 {
                    h1 - 87
                } else {
                    return None;
                };
                let lo: u8 = if 48 <= h2 && h2 <= 57 {
                    h2 - 48
                } else if 97 <= h2 && h2 <= 102 {
                    h2 - 87
                } else {
                    return None;
                };
                let v = hi * 16 + lo;
                if !(v < 32 && v != 8 && v != 12 && v != 10 && v != 13 && v != 9) {
                    return None;
                }
                c = v;
                k = 6;
            } else {
                return None;
            }
        } else if b < 32 {
            return None;
        } else {
            c = b;
            k = 1;
        }
        proof {
            assert(parse_str(data@.skip(pos as int)) == cons_parse(
                c,
                parse_str(data@.skip(pos as int).skip(k as int)),
                k as int,
            ));
            assert(data@.skip(pos as int).skip(k as int) =~= data@.skip(pos + k));
            match parse_str(data@.skip(pos + k)) {
                Some(sn) => {
                    assert(parse_str(data@.skip(pos as int)) == Some(
                        (seq![c] + sn.0, k + sn.1),
                    ));
                    assert(out@ + (seq![c] + sn.0) =~= out@.push(c) + sn.0);
                },
                None => {},
            }
        }
        out.push(c);
        pos = pos + k;
    }
}

proof fn lemma_parse_item_bounds(d: Seq<u8>)
    ensures
        parse_item(d) matches Some(pk) ==> 1 <= pk.1 <= d.len(),
{
    if d.len() >= 2 && d[0] == 91 && d[1] == 34 {
        lemma_parse_str_bounds(d.skip(2));
        match parse_str(d.skip(2)) {
            Some((k, n1)) => {
                let p1 = 2 + n1;
                if p1 + 2 <= d.len() && d[p1] == 44 && d[p1 + 1] == 34 {
                    lemma_parse_str_bounds(d.skip(p1 + 2));
                }
            },
            None => {},
        }
    }
}

proof fn lemma_parse_str_sound(d: Seq<u8>)
    ensures
        parse_str(d) matches Some(sn) ==> d.take(sn.1) == esc(sn.0) + seq![34u8],
    decreases d.len(),
{
    if d.len() == 0 {
    } else if d[0] == 34 {
        match parse_str(d) {
            Some(sn) => {
                assert(sn.0 =~= Seq::<u8>::empty());
                assert(esc(sn.0) =~= Seq::<u8>::empty());
                assert(d.take(1) =~= seq![34u8]);
                assert(d.take(sn.1) =~= esc(sn.0) + seq![34u8]);
            },
            None => {},
        }
    } else if d[0] == 92 {
        if d.len() >= 2 {
            match short_unesc(d[1]) {
                Some(b) => {
                    lemma_parse_str_sound(d.skip(2));
                    lemma_parse_str_bounds(d.skip(2));
                    match parse_str(d.skip(2)) {
                        Some(rn) => {
                            assert(esc_byte(b) =~= seq![92u8, d[1]]);
                            assert(d.take(2 + rn.1) =~= d.take(2) + d.skip(2).take(rn.1));
                            assert(d.take(2) =~= esc_byte(b));
                            assert((seq![b] + rn.0).drop_first() =~= rn.0);
                            assert(esc(seq![b] + rn.0) =~= esc_byte(b) + esc(rn.0));
                            assert(d.take(2 + rn.1) =~= esc(seq![b] + rn.0) + seq![34u8]);
                        },
                        None => {},
                    }
                },
                None => {
                    if d[1] == 117 && d.len() >= 6 && d[2] == 48 && d[3] == 48 {
                        match (hex_val(d[4]), hex_val(d[5])) {
                            (Some(hi), Some(lo)) => {
                                let b = (hi * 16 + lo) as u8;
                                if needs_u_escape(b) {
                                    lemma_parse_str_sound(d.skip(6));
                                    lemma_parse_str_bounds(d.skip(6));
                                    match parse_str(d.skip(6)) {
                                        Some(rn) => {
                                            assert(b as int == (hi as int) * 16 + (lo as int));
                                            assert((b as int) / 16 == hi && (b as int) % 16 == lo)
                                                by {
                                                vstd::arithmetic::div_mod::lemma_fundamental_div_mod_converse(
                                                    b as int,
                                                    16,
                                                    hi as int,
                                                    lo as int,
                                                );
                                            }
                                            assert(hex_digit(b / 16) == d[4] && hex_digit(b % 16)
                                                == d[5]);
                                            assert(esc_byte(b) =~= seq![
                                                92u8,
                                                117u8,
                                                48u8,
                                                48u8,
                                                d[4],
                                                d[5],
                                            ]);
                                            assert(d.take(6 + rn.1) =~= d.take(6) + d.skip(
                                                6,
                                            ).take(rn.1));
                                            assert(d.take(6) =~= esc_byte(b));
                                            assert((seq![b] + rn.0).drop_first() =~= rn.0);
                                            assert(esc(seq![b] + rn.0) =~= esc_byte(b) + esc(
                                                rn.0,
                                            ));
                                            assert(d.take(6 + rn.1) =~= esc(seq![b] + rn.0) + seq![
                                                34u8,
                                            ]);
                                        },
                                        None => {},
                                    }
                                }
                            },
                            _ => {},
                        }
                    }
                },
            }
        }
    } else if d[0] < 32 {
    } else {
        lemma_parse_str_sound(d.skip(1));
        lemma_parse_str_bounds(d.skip(1));
        match parse_str(d.skip(1)) {
            Some(rn) => {
                assert(esc_byte(d[0]) =~= seq![d[0]]);
                assert(d.take(1 + rn.1) =~= d.take(1) + d.skip(1).take(rn.1));
                assert(d.take(1) =~= esc_byte(d[0]));
                assert((seq![d[0]] + rn.0).drop_first() =~= rn.0);
                assert(esc(seq![d[0]] + rn.0) =~= esc_byte(d[0]) + esc(rn.0));
                assert(d.take(1 + rn.1) =~= esc(seq![d[0]] + rn.0) + seq![34u8]);
            },
            None => {},
        }
    }
}

proof fn lemma_parse_item_sound(d: Seq<u8>)
    ensures
        parse_item(d) matches Some(pk) ==> d.take(pk.1) == hdr_item(pk.0),
{
    if d.len() >= 2 && d[0] == 91 && d[1] == 34 {
        lemma_parse_str_sound(d.skip(2));
        lemma_parse_str_bounds(d.skip(2));
        match parse_str(d.skip(2)) {
            Some((k, n1)) => {
                let p1: int = 2 + n1;
                if p1 + 2 <= d.len() && d[p1] == 44 && d[p1 + 1] == 34 {
                    lemma_parse_str_sound(d.skip(p1 + 2));
                    lemma_parse_str_bounds(d.skip(p1 + 2));
                    match parse_str(d.skip(p1 + 2)) {
                        Some((v, n2)) => {
                            let p2: int = p1 + 2 + n2;
                            if p2 < d.len() && d[p2] == 93 {
                                assert(d.take(p2 + 1) =~= seq![91u8, 34u8] + d.skip(2).take(n1)
                                    + seq![44u8, 34u8] + d.skip(p1 + 2).take(n2) + seq![93u8]);
                                assert(d.take(p2 + 1) =~= hdr_item((k, v)));
                            }
                        },
                        None => {},
                    }
                }
            },
            None => {},
        }
    }
}

proof fn lemma_parse_items_sound(d: Seq<u8>)
    ensures
        parse_items(d) matches Some(pm) ==> pm.0.len() >= 1 && d.take(pm.1) == hdr_inner(pm.0)
            + seq![93u8],
    decreases d.len(),
{
    lemma_parse_item_sound(d);
    match parse_item(d) {
        Some((p, k)) => {
            if 0 < k && k < d.len() {
                if d[k] == 44 {
                    lemma_parse_items_sound(d.skip(k + 1));
                    lemma_parse_items_bounds(d.skip(k + 1));
                    match parse_items(d.skip(k + 1)) {
                        Some((ps, m)) => {
                            let all = seq![p] + ps;
                            assert(all[0] == p);
                            assert(all.drop_first() =~= ps);
                            assert(hdr_inner(all) == hdr_item(p) + seq![44u8] + hdr_inner(ps));
                            assert(d.take(k + 1 + m) =~= d.take(k) + seq![d[k]] + d.skip(k
                                + 1).take(m));
                            assert(d.take(k + 1 + m) =~= hdr_inner(all) + seq![93u8]);
                        },
                        None => {},
                    }
                } else if d[k] == 93 {
                    assert(seq![p][0] == p);
                    assert(hdr_inner(seq![p]) == hdr_item(p));
                    assert(d.take(k + 1) =~= d.take(k) + seq![d[k]]);
                    assert(d.take(k + 1) =~= hdr_inner(seq![p]) + seq![93u8]);
                }
            }
        },
        None => {},
    }
}

/// The soundness half of the record parser: whatever it accepts is exactly a
/// record text, so a decode never invents a response.
pub proof fn lemma_parse_record_sound(d: Seq<u8>)
    ensures
        parse_record(d) matches Some(bh) ==> d == record_bytes(bh.0, bh.1),
{
    if starts_with(d, record_pre()) {
        lemma_parse_str_sound(d.skip(9));
        lemma_parse_str_bounds(d.skip(9));
        match parse_str(d.skip(9)) {
            Some((b64, n)) => {
                let p: int = 9 + n;
                if p + 12 <= d.len() && d.skip(p).take(12) == record_mid() {
                    let hd = d.skip(p + 12);
                    if hd.len() > 0 && hd[0] == 93 {
                        let q: int = p + 12 + 1;
                        if q + 1 == d.len() && d[q] == 125 {
                            assert(hdr_inner(Seq::<(Seq<u8>, Seq<u8>)>::empty()) =~= Seq::<
                                u8,
                            >::empty());
                            assert(d =~= d.take(9) + d.skip(9).take(n) + d.skip(p).take(12)
                                + seq![93u8, 125u8]);
                            assert(d =~= record_bytes(b64, Seq::<(Seq<u8>, Seq<u8>)>::empty()));
                        }
                    } else {
                        lemma_parse_items_sound(hd);
                        match parse_items(hd) {
                            Some((hs, m)) => {
                                let q: int = p + 12 + m;
                                if q + 1 == d.len() && d[q] == 125 {
                                    lemma_parse_items_bounds(hd);
                                    assert(hd.take(m) == hdr_inner(hs) + seq![93u8]);
                                    assert(d =~= d.take(9) + d.skip(9).take(n) + d.skip(p).take(12)
                                        + hd.take(m) + seq![125u8]);
                                    assert(d =~= record_bytes(b64, hs));
                                }
                            },
                            None => {},
                        }
                    }
                }
            },
            None => {},
        }
    }
}

/// The soundness half of the header-list parser.
pub proof fn lemma_parse_hdr_list_sound(d: Seq<u8>)
    ensures
        parse_hdr_list(d) matches Some(hs) ==> d == hdr_list_bytes(hs),
{
    if d.len() >= 1 && d[0] == 91 {
        let hd = d.skip(1);
        if hd.len() > 0 && hd[0] == 93 {
            if 1 + 1 == d.len() {
                assert(hdr_inner(Seq::<(Seq<u8>, Seq<u8>)>::empty()) =~= Seq::<u8>::empty());
                assert(d =~= seq![91u8] + seq![93u8]);
                assert(d =~= hdr_list_bytes(Seq::<(Seq<u8>, Seq<u8>)>::empty()));
            }
        } else {
            lemma_parse_items_sound(hd);
            match parse_items(hd) {
                Some((hs, m)) => {
                    if 1 + m == d.len() {
                        lemma_parse_items_bounds(hd);
                        assert(hd.take(m) =~= hd);
                        assert(d =~= seq![91u8] + hd);
                        assert(d =~= hdr_list_bytes(hs));
                    }
                },
                None => {},
            }
        }
    }
}

proof fn lemma_parse_items_bounds(d: Seq<u8>)
    ensures
        parse_items(d) matches Some(pm) ==> 1 <= pm.1 <= d.len(),
    decreases d.len(),
{
    match parse_item(d) {
        Some((p, k)) => {
            if 0 < k && k < d.len() && d[k] == 44 {
                lemma_parse_items_bounds(d.skip(k + 1));
            }
        },
        None => {},
    }
}

/// Parses one `["k","v"]` item at `pos`, returning the pair and the position
/// one past its closing bracket.
fn scan_item(data: &[u8], pos: usize) -> (r: Option<((Vec<u8>, Vec<u8>), usize)>)
    requires
        pos <= data@.len(),
    ensures
        match parse_item(data@.skip(pos as int)) {
            Some(pk) => r matches Some(v) && (v.0.0@, v.0.1@) == pk.0 && v.1 == pos + pk.1 && v.1
                <= data@.len(),
            None => r is None,
        },
{
    let n = data.len();
    let ghost d = data@.skip(pos as int);
    if n - pos < 2 {
        return None;
    }
    proof {
        assert(d[0] == data@[pos as int]);
        assert(d[1] == data@[pos + 1]);
    }
    if data[pos] != 91 || data[pos + 1] != 34 {
        return None;
    }
    proof {
        assert(data@.skip(pos + 2) =~= d.skip(2));
    }
    let key = match scan_string(data, pos + 2) {
        Some(v) => v,
        None => {
            return None;
        },
    };
    let p1 = key.1;
    proof {
        lemma_parse_str_bounds(d.skip(2));
        assert(parse_str(d.skip(2)) matches Some(sn) && p1 - pos == 2 + sn.1);
    }
    if n - p1 < 2 {
        return None;
    }
    proof {
        assert(d[p1 - pos] == data@[p1 as int]);
        assert(d[p1 - pos + 1] == data@[p1 + 1]);
    }
    if data[p1] != 44 || data[p1 + 1] != 34 {
        return None;
    }
    proof {
        assert(data@.skip(p1 + 2) =~= d.skip(p1 - pos + 2));
    }
    let value = match scan_string(data, p1 + 2) {
        Some(v) => v,
        None => {
            return None;
        },
    };
    let p2 = value.1;
    proof {
        lemma_parse_str_bounds(data@.skip(p1 + 2));
    }
    if p2 >= n {
        return None;
    }
    proof {
        assert(d[p2 - pos] == data@[p2 as int]);
    }
    if data[p2] != 93 {
        return None;
    }
    Some(((key.0, value.0), p2 + 1))
}

/// Parses the header items after the list's opening bracket, the closing
/// bracket included.
fn scan_items(data: &[u8], start: usize) -> (r: Option<(Vec<(Vec<u8>, Vec<u8>)>, usize)>)
    requires
        start <= data@.len(),
    ensures
        match parse_items(data@.skip(start as int)) {
            Some(pm) => r matches Some(v) && pairs_view(v.0@) == pm.0 && v.1 == start + pm.1 && v.1
                <= data@.len(),
            None => r is None,
        },
{
    let n = data.len();
    let mut pos = start;
    let mut hs: Vec<(Vec<u8>, Vec<u8>)> = Vec::new();
    loop
        invariant
            n == data@.len(),
            start <= pos <= n,
            match parse_items(data@.skip(pos as int)) {
                Some(pm) => (parse_items(data@.skip(start as int)) matches Some(w) && w.0
                    == pairs_view(hs@) + pm.0 && w.1 == pos - start + pm.1),
                None => parse_items(data@.skip(start as int)) is None,
            },
        decreases n - pos,
    {
        let ghost d = data@.skip(pos as int);
        let item = match scan_item(data, pos) {
            Some(v) => v,
            None => {
                return None;
            },
        };
        let (pair, after) = item;
        let ghost k = after - pos;
        proof {
            lemma_parse_item_bounds(d);
            assert(parse_item(d) matches Some(pk) && pk.1 == k && pk.0 == (pair.0@, pair.1@));
            assert(1 <= k);
        }
        if after >= n {
            return None;
        }
        proof {
            assert(d[k as int] == data@[after as int]);
        }
        let sep = data[after];
        if sep == 93 {
            let ghost pv = pairs_view(hs@);
            hs.push(pair);
            proof {
                assert(parse_items(d) == Some((seq![(pair.0@, pair.1@)], k + 1)));
                assert(pairs_view(hs@) =~= pv + seq![(pair.0@, pair.1@)]);
            }
            return Some((hs, after + 1));
        }
        if sep != 44 {
            proof {
                assert(parse_items(d) is None);
            }
            return None;
        }
        let ghost pv = pairs_view(hs@);
        hs.push(pair);
        proof {
            assert(data@.skip(after + 1) =~= d.skip(k + 1));
            match parse_items(data@.skip(after + 1)) {
                Some(pm) => {
                    assert(parse_items(d) == Some((seq![(pair.0@, pair.1@)] + pm.0, k + 1 + pm.1)));
                    assert(pairs_view(hs@) =~= pv.push((pair.0@, pair.1@)));
                    assert(pv + (seq![(pair.0@, pair.1@)] + pm.0) =~= pairs_view(hs@) + pm.0);
                },
                None => {
                    assert(parse_items(d) is None);
                },
            }
        }
        pos = after + 1;
    }
}

/// Parses a whole record text, strictly: exactly the texts the encoder
/// writes are accepted.
fn scan_record(data: &[u8]) -> (r: Option<(Vec<u8>, Vec<(Vec<u8>, Vec<u8>)>)>)
    ensures
        match parse_record(data@) {
            Some(bh) => r matches Some(v) && v.0@ == bh.0 && pairs_view(v.1@) == bh.1,
            None => r is None,
        },
{
    let n = data.len();
    if n < 9 {
        proof {
            assert(!starts_with(data@, record_pre()));
        }
        return None;
    }
    if data[0] != 123 || data[1] != 34 || data[2] != 98 || data[3] != 111 || data[4] != 100
        || data[5] != 121 || data[6] != 34 || data[7] != 58 || data[8] != 34 {
        proof {
            assert(!starts_with(data@, record_pre())) by {
                if starts_with(data@, record_pre()) {
                    assert(data@.take(9)[0] == data@[0] && data@.take(9)[1] == data@[1]
                        && data@.take(9)[2] == data@[2] && data@.take(9)[3] == data@[3]
                        && data@.take(9)[4] == data@[4] && data@.take(9)[5] == data@[5]
                        && data@.take(9)[6] == data@[6] && data@.take(9)[7] == data@[7]
                        && data@.take(9)[8] == data@[8]);
                }
            }
        }
        return None;
    }
    proof {
        assert(starts_with(data@, record_pre())) by {
            assert(data@.take(9) =~= record_pre());
        }
    }
    let body = match scan_string(data, 9) {
        Some(v) => v,
        None => {
            return None;
        },
    };
    let p = body.1;
    if n - p < 12 {
        return None;
    }
    proof {
        assert forall|j: int| 0 <= j < 12 implies data@.skip(p as int).take(12)[j] == data@[p + j]
            by {}
    }
    if data[p] != 44 || data[p + 1] != 34 || data[p + 2] != 104 || data[p + 3] != 101 || data[p + 4]
        != 97 || data[p + 5] != 100 || data[p + 6] != 101 || data[p + 7] != 114 || data[p + 8]
        != 115 || data[p + 9] != 34 || data[p + 10] != 58 || data[p + 11] != 91 {
        proof {
            assert(data@.skip(p as int).take(12) != record_mid());
        }
        return None;
    }
    proof {
        assert(data@.skip(p as int).take(12) =~= record_mid());
    }
    let hstart = p + 12;
    let ghost hd = data@.skip(hstart as int);
    if hstart < n && data[hstart] == 93 {
        proof {
            assert(hd[0] == 93);
            assert(parse_hdrs(hd) == Some((Seq::<(Seq<u8>, Seq<u8>)>::empty(), 1int)));
        }
        let q = hstart + 1;
        if q < n && data[q] == 125 && q + 1 == n {
            let hs: Vec<(Vec<u8>, Vec<u8>)> = Vec::new();
            proof {
                assert(data@[q as int] == 125);
                assert(pairs_view(hs@) =~= Seq::<(Seq<u8>, Seq<u8>)>::empty());
            }
            return Some((body.0, hs));
        }
        return None;
    }
    proof {
        if hd.len() > 0 && hd[0] == 93 {
            assert(data@[hstart as int] == 93);
        }
        assert(!(hd.len() > 0 && hd[0] == 93));
    }
    let items = match scan_items(data, hstart) {
        Some(v) => v,
        None => {
            return None;
        },
    };
    let q = items.1;
    if q < n && data[q] == 125 && q + 1 == n {
        return Some((body.0, items.0));
    }
    None
}

/// Builds the bare header-list text for the paired backend.
fn build_hdr_list_text(headers: &Vec<(Vec<u8>, Vec<u8>)>) -> (r: Vec<u8>)
    ensures
        r@ == hdr_list_bytes(pairs_view(headers@)),
{
    let mut out: Vec<u8> = Vec::new();
    out.push(91);
    proof {
        assert(out@ =~= seq![91u8]);
    }
    push_hdr_inner(&mut out, headers);
    out.push(93);
    proof {
        assert(out@ =~= hdr_list_bytes(pairs_view(headers@)));
    }
    out
}

/// Parses a bare header-list text, strictly.
pub open spec fn parse_hdr_list(data: Seq<u8>) -> Option<Seq<(Seq<u8>, Seq<u8>)>> {
    if data.len() >= 1 && data[0] == 91 {
        match parse_hdrs(data.skip(1)) {
            Some((hs, m)) => {
                if 1 + m == data.len() {
                    Some(hs)
                } else {
                    None
                }
            },
            None => None,
        }
    } else {
        None
    }
}

/// Law, the other storage layout's half: the header-list parser accepts every
/// text the header-list encoder writes and returns exactly what was encoded.
pub proof fn lemma_parse_hdr_list_inverts(hs: Seq<(Seq<u8>, Seq<u8>)>)
    ensures
        parse_hdr_list(hdr_list_bytes(hs)) == Some(hs),
{
    let d = hdr_list_bytes(hs);
    assert(d[0] == 91);
    assert(d.skip(1) =~= hdr_inner(hs) + seq![93u8]);
    if hs.len() == 0 {
        assert(hdr_inner(hs) =~= Seq::<u8>::empty());
        assert(d.skip(1)[0] == 93);
        assert(parse_hdrs(d.skip(1)) == Some((Seq::<(Seq<u8>, Seq<u8>)>::empty(), 1int)));
        assert(hs =~= Seq::<(Seq<u8>, Seq<u8>)>::empty());
    } else {
        assert(d.skip(1) =~= hdr_inner(hs) + seq![93u8] + Seq::<u8>::empty());
        lemma_hdr_inner_len(hs);
        assert(d.skip(1)[0] == 91);
        lemma_parse_items_inverts(hs, Seq::<u8>::empty());
    }
}

/// Parses a bare header-list text.
fn scan_hdr_list(data: &[u8]) -> (r: Option<Vec<(Vec<u8>, Vec<u8>)>>)
    ensures
        match parse_hdr_list(data@) {
            Some(hs) => r matches Some(v) && pairs_view(v@) == hs,
            None => r is None,
        },
{
    let n = data.len();
    if n < 1 || data[0] != 91 {
        return None;
    }
    let ghost hd = data@.skip(1);
    if n >= 2 && data[1] == 93 {
        proof {
            assert(hd[0] == 93);
            assert(parse_hdrs(hd) == Some((Seq::<(Seq<u8>, Seq<u8>)>::empty(), 1int)));
        }
        if n == 2 {
            let hs: Vec<(Vec<u8>, Vec<u8>)> = Vec::new();
            proof {
                assert(pairs_view(hs@) =~= Seq::<(Seq<u8>, Seq<u8>)>::empty());
            }
            return Some(hs);
        }
        return None;
    }
    proof {
        assert(!(hd.len() > 0 && hd[0] == 93));
    }
    let items = match scan_items(data, 1) {
        Some(v) => v,
        None => {
            return None;
        },
    };
    if items.1 == n {
        return Some(items.0);
    }
    None
}

/// What base64's standard alphabet encodes a byte run as. Names what the
/// base64 crate computes; it depends on the bytes alone.
pub uninterp spec fn b64_of(data: Seq<u8>) -> Seq<u8>;

/// Relies on base64's standard engine encode: the encoding depends on the
/// bytes alone.
#[verifier::external_body]
fn b64_encode(data: &[u8]) -> (r: Vec<u8>)
    ensures
        r@ == b64_of(data@),
{
    base64::Engine::encode(&base64::engine::general_purpose::STANDARD, data).into_bytes()
}

/// Relies on base64's standard engine decode: it rejects non-canonical
/// padding and trailing bits, so it succeeds exactly on encodings and
/// returns the bytes they encode.
#[verifier::external_body]
fn b64_decode(data: &[u8]) -> (r: Option<Vec<u8>>)
    ensures
        r matches Some(v) ==> data@ == b64_of(v@) && (forall|b: Seq<u8>|
            data@ == #[trigger] b64_of(b) ==> v@ == b),
        r is None ==> forall|b: Seq<u8>| data@ != #[trigger] b64_of(b),
{
    match base64::Engine::decode(&base64::engine::general_purpose::STANDARD, data) {
        Ok(v) => Some(v),
        Err(_) => None,
    }
}

/// That a byte run is the gzip compression of another: gunzipping the first
/// yields the second. Names what flate2's decoder relates.
pub uninterp spec fn gunzips_to(z: Seq<u8>, b: Seq<u8>) -> bool;

/// Relies on flate2's GzEncoder over a vector sink, whose writes cannot
/// fail: the output gunzips back to the input.
#[verifier::external_body]
fn gzip_compress(data: &[u8]) -> (r: Vec<u8>)
    ensures
        gunzips_to(r@, data@),
{
    let mut enc = flate2::write::GzEncoder::new(Vec::new(), flate2::Compression::default());
    std::io::Write::write_all(&mut enc, data).unwrap();
    enc.finish().unwrap()
}

/// Relies on flate2's GzDecoder: decompression is a function of the
/// compressed bytes, succeeding exactly on the streams that gunzip, with the
/// one byte run each such stream stands for.
#[verifier::external_body]
fn gzip_decompress(data: &[u8]) -> (r: Option<Vec<u8>>)
    ensures
        r matches Some(v) ==> gunzips_to(data@, v@) && (forall|b: Seq<u8>|
            #[trigger] gunzips_to(data@, b) ==> v@ == b),
        r is None ==> forall|b: Seq<u8>| !#[trigger] gunzips_to(data@, b),
{
    let mut dec = flate2::read::GzDecoder::new(data);
    let mut out = Vec::new();
    match std::io::Read::read_to_end(&mut dec, &mut out) {
        Ok(_) => Some(out),
        Err(_) => None,
    }
}

/// Relies on String::from_utf8: it succeeds exactly on valid UTF-8 and
/// decodes it.
#[verifier::external_body]
fn bytes_to_string(v: Vec<u8>) -> (r: Option<String>)
    ensures
        r matches Some(s) ==> valid_utf8(v@) && s@ == decode_utf8(v@),
        r is None ==> !valid_utf8(v@),
{
    match String::from_utf8(v) {
        Ok(s) => Some(s),
        Err(_) => None,
    }
}

/// The byte pairs of a header list's strings.
pub open spec fn pairs_utf8(headers: Seq<(Seq<char>, Seq<char>)>) -> Seq<(Seq<u8>, Seq<u8>)> {
    headers.map_values(|p: (Seq<char>, Seq<char>)| (encode_utf8(p.0), encode_utf8(p.1)))
}

/// That a blob is the single-blob durable record of a response: the gzip of
/// the record text whose body string is the base64 of the body.
pub open spec fn blob_encodes(z: Seq<u8>, body: Seq<u8>, headers: Seq<(Seq<char>, Seq<char>)>) -> bool {
    gunzips_to(z, record_bytes(b64_of(body), pairs_utf8(headers)))
}

/// Converts a header list to byte pairs.
fn headers_to_bytes(headers: &Vec<(String, String)>) -> (r: Vec<(Vec<u8>, Vec<u8>)>)
    ensures
        pairs_view(r@) == pairs_utf8(headers_view(headers@)),
{
    let mut out: Vec<(Vec<u8>, Vec<u8>)> = Vec::new();
    let n = headers.len();
    let mut i: usize = 0;
    while i < n
        invariant
            n == headers@.len(),
            i <= n,
            pairs_view(out@) =~= pairs_utf8(headers_view(headers@.take(i as int))),
        decreases n - i,
    {
        let k = vstd::slice::slice_to_vec(headers[i].0.as_str().as_bytes());
        let v = vstd::slice::slice_to_vec(headers[i].1.as_str().as_bytes());
        out.push((k, v));
        proof {
            assert(headers@.take(i + 1) =~= headers@.take(i as int).push(headers@[i as int]));
            assert(headers_view(headers@.take(i + 1)) =~= headers_view(
                headers@.take(i as int),
            ).push((headers@[i as int].0@, headers@[i as int].1@)));
            assert(pairs_utf8(headers_view(headers@.take(i + 1))) =~= pairs_utf8(
                headers_view(headers@.take(i as int)),
            ).push((encode_utf8(headers@[i as int].0@), encode_utf8(headers@[i as int].1@))));
            assert(pairs_view(out@) =~= pairs_view(out@.drop_last()).push((k@, v@)));
            assert(pairs_view(out@) =~= pairs_utf8(headers_view(headers@.take(i + 1))));
        }
        i = i + 1;
    }
    proof {
        assert(headers@.take(n as int) =~= headers@);
    }
    out
}

/// Encodes a response as the single-blob durable record: gzip of the JSON
/// text whose body is base64.
pub fn encode_record(body: &Vec<u8>, headers: &Vec<(String, String)>) -> (r: Vec<u8>)
    ensures
        blob_encodes(r@, body@, headers_view(headers@)),
{
    let b64 = b64_encode(body.as_slice());
    let hb = headers_to_bytes(headers);
    let text = build_record_text(b64.as_slice(), &hb);
    gzip_compress(text.as_slice())
}

/// Decodes a single-blob durable record. It succeeds on exactly the blobs
/// the encoder writes and returns what was encoded, so, together with the
/// encoder's contract, a stored record loads back deep-equal; anything else
/// is rejected as a miss.
pub fn decode_record(data: &[u8]) -> (r: Option<(Vec<u8>, Vec<(String, String)>)>)
    ensures
        forall|body: Seq<u8>, headers: Seq<(Seq<char>, Seq<char>)>|
            #[trigger] blob_encodes(data@, body, headers) ==> (r matches Some(v) && v.0@ == body
                && headers_view(v.1@) == headers),
        r matches Some(v) ==> blob_encodes(data@, v.0@, headers_view(v.1@)),
{
    let text = match gzip_decompress(data) {
        Some(t) => t,
        None => {
            proof {
                lemma_no_blob(data@);
            }
            return None;
        },
    };
    let parsed = match scan_record(text.as_slice()) {
        Some(p) => p,
        None => {
            proof {
                lemma_no_record(data@, text@);
            }
            return None;
        },
    };
    let body = match b64_decode(parsed.0.as_slice()) {
        Some(b) => b,
        None => {
            proof {
                lemma_no_body(data@, text@, parsed.0@, pairs_view(parsed.1@));
            }
            return None;
        },
    };
    let mut headers: Vec<(String, String)> = Vec::new();
    let mut rest = parsed.1;
    let ghost all = pairs_view(rest@);
    let ghost b64v = parsed.0@;
    proof {
        assert(pairs_utf8(headers_view(headers@)) =~= all.take(0));
        assert(pairs_view(rest@) =~= all.skip(0));
    }
    while rest.len() > 0
        invariant
            gunzips_to(data@, text@),
            forall|b: Seq<u8>| #[trigger] gunzips_to(data@, b) ==> b == text@,
            parse_record(text@) == Some((b64v, all)),
            forall|b: Seq<u8>| b64v == #[trigger] b64_of(b) ==> b == body@,
            b64_of(body@) == b64v,
            headers@.len() + rest@.len() == all.len(),
            pairs_utf8(headers_view(headers@)) =~= all.take(headers@.len() as int),
            pairs_view(rest@) =~= all.skip(headers@.len() as int),
        decreases rest@.len(),
    {
        broadcast use vstd::utf8::decode_utf8_encode_utf8;

        let ghost i = headers@.len() as int;
        let ghost before = rest@;
        let (kb, vb) = rest.remove(0);
        proof {
            assert(rest@ =~= before.drop_first());
            assert(pairs_view(before)[0] == all[i]);
            assert((kb@, vb@) == all[i]);
        }
        let ks = match bytes_to_string(kb) {
            Some(s) => s,
            None => {
                proof {
                    lemma_no_headers(data@, text@, b64v, all, i);
                }
                return None;
            },
        };
        let vs = match bytes_to_string(vb) {
            Some(s) => s,
            None => {
                proof {
                    lemma_no_headers(data@, text@, b64v, all, i);
                }
                return None;
            },
        };
        headers.push((ks, vs));
        proof {
            assert(headers_view(headers@) =~= headers_view(headers@.drop_last()).push(
                (ks@, vs@),
            ));
            assert(encode_utf8(ks@) == all[i].0 && encode_utf8(vs@) == all[i].1);
            assert(pairs_utf8(headers_view(headers@)) =~= all.take(i + 1));
            assert(pairs_view(before.drop_first()) =~= pairs_view(before).drop_first());
            assert(pairs_view(rest@) =~= all.skip(i).drop_first());
            assert(all.skip(i).drop_first() =~= all.skip(i + 1));
        }
    }
    proof {
        assert(pairs_utf8(headers_view(headers@)) =~= all);
    }
    let result = Some((body, headers));
    proof {
        broadcast use vstd::utf8::encode_utf8_decode_utf8;

        lemma_parse_record_sound(text@);
        assert(text@ == record_bytes(b64v, all));
        assert(blob_encodes(data@, body@, headers_view(headers@)));

        assert forall|bb: Seq<u8>, hh: Seq<(Seq<char>, Seq<char>)>|
            #[trigger] blob_encodes(data@, bb, hh) implies (body@ == bb && headers_view(headers@)
            == hh) by {
            assert(text@ == record_bytes(b64_of(bb), pairs_utf8(hh)));
            lemma_parse_record_inverts(b64_of(bb), pairs_utf8(hh));
            assert(b64v == b64_of(bb) && all == pairs_utf8(hh));
            assert(body@ == bb);
            assert forall|j: int| 0 <= j < hh.len() implies headers_view(headers@)[j] == hh[j] by {
                assert(pairs_utf8(hh)[j] == (encode_utf8(hh[j].0), encode_utf8(hh[j].1)));
                assert(pairs_utf8(headers_view(headers@))[j] == all[j]);
                assert(encode_utf8(headers_view(headers@)[j].0) == encode_utf8(hh[j].0));
                assert(decode_utf8(encode_utf8(headers_view(headers@)[j].0)) == decode_utf8(
                    encode_utf8(hh[j].0),
                ));
                assert(decode_utf8(encode_utf8(headers_view(headers@)[j].1)) == decode_utf8(
                    encode_utf8(hh[j].1),
                ));
            }
            assert(headers_view(headers@) =~= hh);
        }
    }
    result
}

proof fn lemma_no_headers(data: Seq<u8>, text: Seq<u8>, b64: Seq<u8>, hs: Seq<(Seq<u8>, Seq<u8>)>, i: int)
    requires
        gunzips_to(data, text),
        forall|b: Seq<u8>| #[trigger] gunzips_to(data, b) ==> b == text,
        parse_record(text) == Some((b64, hs)),
        0 <= i < hs.len(),
        !valid_utf8(hs[i].0) || !valid_utf8(hs[i].1),
    ensures
        forall|body: Seq<u8>, headers: Seq<(Seq<char>, Seq<char>)>|
            !#[trigger] blob_encodes(data, body, headers),
{
    broadcast use vstd::utf8::encode_utf8_valid_utf8;

    assert forall|body: Seq<u8>, headers: Seq<(Seq<char>, Seq<char>)>|
        !#[trigger] blob_encodes(data, body, headers) by {
        if blob_encodes(data, body, headers) {
            assert(text == record_bytes(b64_of(body), pairs_utf8(headers)));
            lemma_parse_record_inverts(b64_of(body), pairs_utf8(headers));
            assert(hs == pairs_utf8(headers));
            assert(hs[i] == (encode_utf8(headers[i].0), encode_utf8(headers[i].1)));
        }
    }
}

proof fn lemma_no_blob(data: Seq<u8>)
    requires
        forall|b: Seq<u8>| !#[trigger] gunzips_to(data, b),
    ensures
        forall|body: Seq<u8>, headers: Seq<(Seq<char>, Seq<char>)>|
            !#[trigger] blob_encodes(data, body, headers),
{
}

proof fn lemma_no_record(data: Seq<u8>, text: Seq<u8>)
    requires
        gunzips_to(data, text),
        forall|b: Seq<u8>| #[trigger] gunzips_to(data, b) ==> b == text,
        parse_record(text) is None,
    ensures
        forall|body: Seq<u8>, headers: Seq<(Seq<char>, Seq<char>)>|
            !#[trigger] blob_encodes(data, body, headers),
{
    assert forall|body: Seq<u8>, headers: Seq<(Seq<char>, Seq<char>)>|
        !#[trigger] blob_encodes(data, body, headers) by {
        if blob_encodes(data, body, headers) {
            assert(text == record_bytes(b64_of(body), pairs_utf8(headers)));
            lemma_parse_record_inverts(b64_of(body), pairs_utf8(headers));
        }
    }
}

proof fn lemma_no_body(data: Seq<u8>, text: Seq<u8>, b64: Seq<u8>, hs: Seq<(Seq<u8>, Seq<u8>)>)
    requires
        gunzips_to(data, text),
        forall|b: Seq<u8>| #[trigger] gunzips_to(data, b) ==> b == text,
        parse_record(text) == Some((b64, hs)),
        forall|b: Seq<u8>| b64 != #[trigger] b64_of(b),
    ensures
        forall|body: Seq<u8>, headers: Seq<(Seq<char>, Seq<char>)>|
            !#[trigger] blob_encodes(data, body, headers),
{
    assert forall|body: Seq<u8>, headers: Seq<(Seq<char>, Seq<char>)>|
        !#[trigger] blob_encodes(data, body, headers) by {
        if blob_encodes(data, body, headers) {
            assert(text == record_bytes(b64_of(body), pairs_utf8(headers)));
            lemma_parse_record_inverts(b64_of(body), pairs_utf8(headers));
            assert(b64 == b64_of(body));
        }
    }
}

/// Turns parsed byte pairs back into header strings; fails when a name or
/// value is not valid UTF-8, which no encoded header list produces.
fn strings_of_pairs(hs: Vec<(Vec<u8>, Vec<u8>)>) -> (r: Option<Vec<(String, String)>>)
    ensures
        r matches Some(v) ==> pairs_utf8(headers_view(v@)) == pairs_view(hs@) && (forall|
            hh: Seq<(Seq<char>, Seq<char>)>,
        |
            pairs_view(hs@) == #[trigger] pairs_utf8(hh) ==> headers_view(v@) == hh),
        r is None ==> forall|hh: Seq<(Seq<char>, Seq<char>)>|
            pairs_view(hs@) != #[trigger] pairs_utf8(hh),
{
    broadcast use vstd::utf8::decode_utf8_encode_utf8;
    broadcast use vstd::utf8::encode_utf8_decode_utf8;
    broadcast use vstd::utf8::encode_utf8_valid_utf8;

    let ghost all = pairs_view(hs@);
    let mut headers: Vec<(String, String)> = Vec::new();
    let mut rest = hs;
    proof {
        assert(pairs_utf8(headers_view(headers@)) =~= all.take(0));
        assert(pairs_view(rest@) =~= all.skip(0));
    }
    while rest.len() > 0
        invariant
            all == pairs_view(hs@),
            headers@.len() + rest@.len() == all.len(),
            pairs_utf8(headers_view(headers@)) =~= all.take(headers@.len() as int),
            pairs_view(rest@) =~= all.skip(headers@.len() as int),
        decreases rest@.len(),
    {
        broadcast use vstd::utf8::decode_utf8_encode_utf8;
        broadcast use vstd::utf8::encode_utf8_valid_utf8;

        let ghost i = headers@.len() as int;
        let ghost before = rest@;
        let (kb, vb) = rest.remove(0);
        proof {
            assert(rest@ =~= before.drop_first());
            assert(pairs_view(before)[0] == all[i]);
            assert((kb@, vb@) == all[i]);
        }
        let ks = match bytes_to_string(kb) {
            Some(s) => s,
            None => {
                proof {
                    lemma_pairs_utf8_valid(all, i);
                }
                return None;
            },
        };
        let vs = match bytes_to_string(vb) {
            Some(s) => s,
            None => {
                proof {
                    lemma_pairs_utf8_valid(all, i);
                }
                return None;
            },
        };
        headers.push((ks, vs));
        proof {
            assert(headers_view(headers@) =~= headers_view(headers@.drop_last()).push((ks@, vs@)));
            assert(encode_utf8(ks@) == all[i].0 && encode_utf8(vs@) == all[i].1);
            assert(pairs_utf8(headers_view(headers@)) =~= all.take(i + 1));
            assert(pairs_view(before.drop_first()) =~= pairs_view(before).drop_first());
            assert(pairs_view(rest@) =~= all.skip(i).drop_first());
            assert(all.skip(i).drop_first() =~= all.skip(i + 1));
        }
    }
    proof {
        assert(pairs_utf8(headers_view(headers@)) =~= all);
        assert forall|hh: Seq<(Seq<char>, Seq<char>)>|
            all == #[trigger] pairs_utf8(hh) implies headers_view(headers@) == hh by {
            assert forall|j: int| 0 <= j < hh.len() implies headers_view(headers@)[j] == hh[j] by {
                assert(pairs_utf8(hh)[j] == (encode_utf8(hh[j].0), encode_utf8(hh[j].1)));
                assert(pairs_utf8(headers_view(headers@))[j] == all[j]);
                assert(encode_utf8(headers_view(headers@)[j].0) == encode_utf8(hh[j].0));
                assert(encode_utf8(headers_view(headers@)[j].1) == encode_utf8(hh[j].1));
                assert(decode_utf8(encode_utf8(headers_view(headers@)[j].0)) == decode_utf8(
                    encode_utf8(hh[j].0),
                ));
                assert(decode_utf8(encode_utf8(headers_view(headers@)[j].1)) == decode_utf8(
                    encode_utf8(hh[j].1),
                ));
            }
            assert(headers_view(headers@) =~= hh);
        }
    }
    Some(headers)
}

proof fn lemma_pairs_utf8_valid(all: Seq<(Seq<u8>, Seq<u8>)>, i: int)
    requires
        0 <= i < all.len(),
        !valid_utf8(all[i].0) || !valid_utf8(all[i].1),
    ensures
        forall|hh: Seq<(Seq<char>, Seq<char>)>| all != #[trigger] pairs_utf8(hh),
{
    broadcast use vstd::utf8::encode_utf8_valid_utf8;

    assert forall|hh: Seq<(Seq<char>, Seq<char>)>| all != #[trigger] pairs_utf8(hh) by {
        if all == pairs_utf8(hh) {
            assert(all[i] == (encode_utf8(hh[i].0), encode_utf8(hh[i].1)));
        }
    }
}

/// Encodes the paired backend's body blob: the gzip of the raw body.
pub fn encode_body_blob(body: &Vec<u8>) -> (r: Vec<u8>)
    ensures
        gunzips_to(r@, body@),
{
    gzip_compress(body.as_slice())
}

/// Decodes the paired backend's body blob: the one byte run the blob
/// gunzips to, or nothing for a stream that is no gzip.
pub fn decode_body_blob(data: &[u8]) -> (r: Option<Vec<u8>>)
    ensures
        r matches Some(v) ==> gunzips_to(data@, v@),
        forall|b: Seq<u8>| #[trigger] gunzips_to(data@, b) ==> (r matches Some(v) && v@ == b),
{
    gzip_decompress(data)
}

/// That a blob is the paired backend's meta blob of a header list: the gzip
/// of the bare JSON header-list text.
pub open spec fn meta_encodes(z: Seq<u8>, headers: Seq<(Seq<char>, Seq<char>)>) -> bool {
    gunzips_to(z, hdr_list_bytes(pairs_utf8(headers)))
}

/// Encodes the paired backend's meta blob.
pub fn encode_meta_blob(headers: &Vec<(String, String)>) -> (r: Vec<u8>)
    ensures
        meta_encodes(r@, headers_view(headers@)),
{
    let hb = headers_to_bytes(headers);
    let text = build_hdr_list_text(&hb);
    gzip_compress(text.as_slice())
}

/// Decodes the paired backend's meta blob; the caller degrades a missing or
/// corrupt meta to an empty header list. It succeeds on exactly the blobs
/// the meta encoder writes.
pub fn decode_meta_blob(data: &[u8]) -> (r: Option<Vec<(String, String)>>)
    ensures
        forall|hh: Seq<(Seq<char>, Seq<char>)>|
            #[trigger] meta_encodes(data@, hh) ==> (r matches Some(v) && headers_view(v@) == hh),
        r matches Some(v) ==> meta_encodes(data@, headers_view(v@)),
{
    let text = match gzip_decompress(data) {
        Some(t) => t,
        None => {
            return None;
        },
    };
    let parsed = match scan_hdr_list(text.as_slice()) {
        Some(p) => p,
        None => {
            proof {
                assert forall|hh: Seq<(Seq<char>, Seq<char>)>|
                    !#[trigger] meta_encodes(data@, hh) by {
                    if meta_encodes(data@, hh) {
                        assert(text@ == hdr_list_bytes(pairs_utf8(hh)));
                        lemma_parse_hdr_list_inverts(pairs_utf8(hh));
                    }
                }
            }
            return None;
        },
    };
    let ghost all = pairs_view(parsed@);
    let out = match strings_of_pairs(parsed) {
        Some(v) => v,
        None => {
            proof {
                assert forall|hh: Seq<(Seq<char>, Seq<char>)>|
                    !#[trigger] meta_encodes(data@, hh) by {
                    if meta_encodes(data@, hh) {
                        assert(text@ == hdr_list_bytes(pairs_utf8(hh)));
                        lemma_parse_hdr_list_inverts(pairs_utf8(hh));
                        assert(all == pairs_utf8(hh));
                    }
                }
            }
            return None;
        },
    };
    let result = Some(out);
    proof {
        lemma_parse_hdr_list_sound(text@);
        assert(text@ == hdr_list_bytes(all));
        assert(meta_encodes(data@, headers_view(out@)));
        assert forall|hh: Seq<(Seq<char>, Seq<char>)>|
            #[trigger] meta_encodes(data@, hh) implies (result matches Some(v) && headers_view(v@)
            == hh) by {
            assert(text@ == hdr_list_bytes(pairs_utf8(hh)));
            lemma_parse_hdr_list_inverts(pairs_utf8(hh));
            assert(all == pairs_utf8(hh));
        }
    }
    result
}

} // verus!
