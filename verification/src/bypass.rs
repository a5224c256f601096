//! Header-driven cache bypass: a client can disable every cache layer for a
//! single request with `Cache-Control: no-cache` or `x-bypass-cache: true`.

use vstd::prelude::*;

verus! {

use vstd::utf8::encode_utf8;
use vstd::string::StringSliceAdditionalSpecFns;
use crate::text::{lower_bytes, lower_chars, lower_bytes_of, bytes_eq, str_eq};

/// The first header whose name case-folds to `name`, if any; later headers
/// with the same name do not matter.
pub open spec fn find_header(headers: Seq<(String, String)>, name: Seq<char>) -> Option<
    (String, String),
>
    decreases headers.len(),
{
    if headers.len() == 0 {
        None
    } else if lower_chars(headers[0].0@) == name {
        Some(headers[0])
    } else {
        find_header(headers.drop_first(), name)
    }
}

/// Whether `needle` occurs as a contiguous run inside `hay`.
pub open spec fn contains_sub(hay: Seq<u8>, needle: Seq<u8>) -> bool {
    exists|i: int|
        0 <= i && i + needle.len() <= hay.len() && #[trigger] hay.subrange(i, i + needle.len())
            == needle
}

/// Whether this request asks to skip every cache layer: its first
/// cache-control value contains `no-cache` (case-insensitively), or its first
/// x-bypass-cache value equals `true` (case-insensitively).
pub open spec fn bypass_of(headers: Seq<(String, String)>) -> bool {
    ||| match find_header(headers, "cache-control"@) {
        Some(h) => contains_sub(lower_bytes(encode_utf8(h.1@)), encode_utf8("no-cache"@)),
        None => false,
    }
    ||| match find_header(headers, "x-bypass-cache"@) {
        Some(h) => lower_bytes(encode_utf8(h.1@)) == encode_utf8("true"@),
        None => false,
    }
}

/// Whether `needle` occurs as a contiguous run inside `hay`.
fn contains_subslice(hay: &[u8], needle: &[u8]) -> (r: bool)
    ensures
        r == contains_sub(hay@, needle@),
{
    let m = needle.len();
    let n = hay.len();
    if m == 0 {
        proof {
            assert(hay@.subrange(0, 0 + needle@.len() as int) =~= needle@);
        }
        return true;
    }
    if m > n {
        return false;
    }
    let mut i: usize = 0;
    while i < n - m + 1
        invariant
            m == needle@.len(),
            n == hay@.len(),
            1 <= m <= n,
            i <= n - m + 1,
            forall|j: int| 0 <= j < i ==> #[trigger] hay@.subrange(j, j + m) != needle@,
        decreases n - m + 1 - i,
    {
        if bytes_eq(&hay[i..i + m], needle) {
            return true;
        }
        i = i + 1;
    }
    false
}

/// Finds the first header whose name case-folds to `name` and returns its
/// value.
fn header_value(headers: &Vec<(String, String)>, name: &str) -> (r: Option<String>)
    ensures
        r == match find_header(headers@, name@) {
            Some(h) => Some::<String>(h.1),
            None => None::<String>,
        },
{
    let n = headers.len();
    proof {
        assert(headers@.skip(0) =~= headers@);
    }
    let mut i: usize = 0;
    while i < n
        invariant
            n == headers@.len(),
            i <= n,
            find_header(headers@, name@) == find_header(headers@.skip(i as int), name@),
        decreases n - i,
    {
        proof {
            assert(headers@.skip(i as int)[0] == headers@[i as int]);
        }
        let lowered = headers[i].0.as_str().to_ascii_lowercase();
        if str_eq(lowered.as_str(), name) {
            return Some(headers[i].1.clone());
        }
        proof {
            assert(headers@.skip(i as int).drop_first() =~= headers@.skip(i + 1));
        }
        i = i + 1;
    }
    None
}

/// Returns true if the client explicitly requests to bypass all cache
/// layers, suppressing both reads and writes for this request.
pub fn should_bypass_cache(headers: &Vec<(String, String)>) -> (r: bool)
    ensures
        r == bypass_of(headers@),
{
    match header_value(headers, "cache-control") {
        Some(v) => {
            let lowered = lower_bytes_of(v.as_str().as_bytes());
            if contains_subslice(lowered.as_slice(), "no-cache".as_bytes()) {
                return true;
            }
        },
        None => {},
    }
    match header_value(headers, "x-bypass-cache") {
        Some(v) => {
            let lowered = lower_bytes_of(v.as_str().as_bytes());
            if bytes_eq(lowered.as_slice(), "true".as_bytes()) {
                return true;
            }
        },
        None => {},
    }
    false
}

} // verus!
