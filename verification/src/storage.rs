//! The durable tier's layout: where each backend keeps a record and which
//! blobs a store or load moves. The object stores and the local filesystem
//! all persist the same envelope; one backend keeps a body/meta pair, the
//! rest a single blob.

use vstd::prelude::*;

verus! {

use vstd::string::StringExecFns;
use crate::codec::{encode_record, encode_body_blob, encode_meta_blob, blob_encodes, gunzips_to,
    meta_encodes};
use crate::text::headers_view;
use crate::config::StorageBackend;

/// The directory the local backend keeps this app's blobs in:
/// `storage/cache/{app_id}`.
pub fn local_cache_dir(app_id: &str) -> (r: String)
    ensures
        r@ == "storage/cache/"@ + app_id@,
{
    let mut path = String::from_str("storage/cache/");
    path.append(app_id);
    path
}

/// Constructs the full filesystem path for a cache key:
/// `storage/cache/{app_id}/{key}.gz`.
pub fn build_local_cache_path(app_id: &str, key: &str) -> (r: String)
    ensures
        r@ == "storage/cache/"@ + app_id@ + "/"@ + key@ + ".gz"@,
{
    let mut path = String::from_str("storage/cache/");
    path.append(app_id);
    path.append("/");
    path.append(key);
    path.append(".gz");
    path
}

/// The object name a single-blob backend stores a key under:
/// `cache/{app_id}/{key}`.
pub fn object_path(app_id: &str, key: &str) -> (r: String)
    ensures
        r@ == "cache/"@ + app_id@ + "/"@ + key@,
{
    let mut path = String::from_str("cache/");
    path.append(app_id);
    path.append("/");
    path.append(key);
    path
}

/// The object name the paired backend stores a body under:
/// `cache/{app_id}/{key}.gz`.
pub fn object_data_path(app_id: &str, key: &str) -> (r: String)
    ensures
        r@ == "cache/"@ + app_id@ + "/"@ + key@ + ".gz"@,
{
    let mut path = object_path(app_id, key);
    path.append(".gz");
    path
}

/// The object name the paired backend stores headers under:
/// `cache/{app_id}/{key}.meta.gz`.
pub fn object_meta_path(app_id: &str, key: &str) -> (r: String)
    ensures
        r@ == "cache/"@ + app_id@ + "/"@ + key@ + ".meta.gz"@,
{
    let mut path = object_path(app_id, key);
    path.append(".meta.gz");
    path
}

/// One blob a store operation writes: a backend location and its bytes.
pub struct BlobPlan {
    pub path: String,
    pub data: Vec<u8>,
}

/// The blobs that persist a response under `key` for the selected backend:
/// a single gzip-JSON record, or a body/meta pair for the paired backend.
/// The transport that writes them is the backend client's work.
pub fn plan_store(
    backend: StorageBackend,
    app_id: &str,
    key: &str,
    body: &Vec<u8>,
    headers: &Vec<(String, String)>,
) -> (r: Vec<BlobPlan>)
    ensures
        backend != StorageBackend::S3 ==> {
            &&& r@.len() == 1
            &&& blob_encodes(r@[0].data@, body@, headers_view(headers@))
            &&& (backend == StorageBackend::Local ==> r@[0].path@ == "storage/cache/"@ + app_id@
                + "/"@ + key@ + ".gz"@)
            &&& (backend != StorageBackend::Local ==> r@[0].path@ == "cache/"@ + app_id@ + "/"@
                + key@)
        },
        backend == StorageBackend::S3 ==> {
            &&& r@.len() == 2
            &&& r@[0].path@ == "cache/"@ + app_id@ + "/"@ + key@ + ".gz"@
            &&& gunzips_to(r@[0].data@, body@)
            &&& r@[1].path@ == "cache/"@ + app_id@ + "/"@ + key@ + ".meta.gz"@
            &&& meta_encodes(r@[1].data@, headers_view(headers@))
        },
{
    let mut plans: Vec<BlobPlan> = Vec::new();
    match backend {
        StorageBackend::S3 => {
            plans.push(
                BlobPlan { path: object_data_path(app_id, key), data: encode_body_blob(body) },
            );
            plans.push(
                BlobPlan { path: object_meta_path(app_id, key), data: encode_meta_blob(headers) },
            );
        },
        StorageBackend::Local => {
            plans.push(
                BlobPlan {
                    path: build_local_cache_path(app_id, key),
                    data: encode_record(body, headers),
                },
            );
        },
        _ => {
            plans.push(
                BlobPlan { path: object_path(app_id, key), data: encode_record(body, headers) },
            );
        },
    }
    plans
}

/// Reassembles a response from the paired backend's blobs: the body blob is
/// required; a missing or corrupt meta blob degrades to an empty header
/// list.
pub fn assemble_pair(body_blob: &[u8], meta_blob: &Option<Vec<u8>>) -> (r: Option<
    (Vec<u8>, Vec<(String, String)>),
>)
    ensures
        forall|b: Seq<u8>|
            #[trigger] gunzips_to(body_blob@, b) ==> (r matches Some(v) && v.0@ == b),
        r matches Some(v) ==> gunzips_to(body_blob@, v.0@),
        meta_blob matches Some(m) ==> forall|hh: Seq<(Seq<char>, Seq<char>)>|
            #[trigger] meta_encodes(m@, hh) ==> (r is None || (r matches Some(v) && headers_view(
                v.1@,
            ) == hh)),
        meta_blob matches Some(m) ==> ((forall|hh: Seq<(Seq<char>, Seq<char>)>|
            !#[trigger] meta_encodes(m@, hh)) ==> (r matches Some(v) ==> v.1@.len() == 0)),
        meta_blob is None ==> (r matches Some(v) ==> v.1@.len() == 0),
{
    let body = match crate::codec::decode_body_blob(body_blob) {
        Some(b) => b,
        None => {
            return None;
        },
    };
    let headers: Vec<(String, String)> = match meta_blob {
        Some(m) => {
            match crate::codec::decode_meta_blob(m.as_slice()) {
                Some(h) => {
                    return Some((body, h));
                },
                None => Vec::new(),
            }
        },
        None => Vec::new(),
    };
    proof {
        assert(headers@.len() == 0);
    }
    Some((body, headers))
}

} // verus!
