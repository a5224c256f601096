use cachebolt::codec::{
    decode_meta_blob, decode_record, encode_body_blob, encode_meta_blob, encode_record,
};
use cachebolt::config::StorageBackend;
use cachebolt::storage::{
    assemble_pair, build_local_cache_path, object_data_path, object_meta_path, object_path,
    plan_store,
};
use flate2::Compression;
use flate2::write::GzEncoder;
use std::io::Write;

#[test]
fn test_store_and_load_cache_roundtrip() {
    let data = b"Hello, Cache!".to_vec();
    let headers = vec![
        ("Content-Type".to_string(), "text/plain".to_string()),
        ("X-Test".to_string(), "true".to_string()),
    ];

    let blob = encode_record(&data, &headers);
    let result = decode_record(&blob);
    assert!(result.is_some(), "Expected cached value to be returned");

    let (loaded_data, loaded_headers) = result.unwrap();
    assert_eq!(loaded_data, data);
    assert_eq!(loaded_headers, headers);
}

#[test]
fn test_store_fails_with_invalid_utf8() {
    let data = vec![0xFF, 0xFE, 0xFD];
    let headers = vec![];

    let blob = encode_record(&data, &headers);
    let result = decode_record(&blob);
    assert!(result.is_some(), "Even invalid binary should be storable");
    assert_eq!(result.unwrap().0, data);
}

#[test]
fn test_load_fails_with_corrupt_gzip() {
    let result = decode_record(b"not gzip");
    assert!(result.is_none(), "Should return None on corrupt gzip");
}

#[test]
fn test_load_fails_on_invalid_json() {
    let mut encoder = GzEncoder::new(Vec::new(), Compression::default());
    encoder.write_all(b"This is not JSON").unwrap();
    let compressed = encoder.finish().unwrap();

    let result = decode_record(&compressed);
    assert!(result.is_none(), "Expected None for invalid JSON in gzip");
}

#[test]
fn test_load_fails_on_base64_decode() {
    let bad_record = r#"{"body":"!!!!NOTBASE64!!!!","headers":[["X-Test","true"]]}"#;
    let mut encoder = GzEncoder::new(Vec::new(), Compression::default());
    encoder.write_all(bad_record.as_bytes()).unwrap();
    let compressed = encoder.finish().unwrap();

    let result = decode_record(&compressed);
    assert!(result.is_none(), "Expected None for base64 decode error");
}

#[test]
fn test_record_roundtrip_with_escaped_headers() {
    let data = b"body".to_vec();
    let headers = vec![
        ("x-quote".to_string(), "a \"quoted\" value".to_string()),
        ("x-slash".to_string(), "back\\slash".to_string()),
        ("x-ctrl".to_string(), "tab\there\nand newline".to_string()),
        ("x-unicode".to_string(), "smörgåsbord".to_string()),
    ];
    let blob = encode_record(&data, &headers);
    let (_, loaded) = decode_record(&blob).expect("escaped headers must round-trip");
    assert_eq!(loaded, headers);
}

#[test]
fn test_pair_roundtrip() {
    let body = b"paired body".to_vec();
    let headers = vec![("a".to_string(), "1".to_string())];
    let body_blob = encode_body_blob(&body);
    let meta_blob = encode_meta_blob(&headers);

    let assembled = assemble_pair(&body_blob, &Some(meta_blob)).expect("pair must decode");
    assert_eq!(assembled.0, body);
    assert_eq!(assembled.1, headers);
}

#[test]
fn test_pair_missing_meta_degrades_to_empty_headers() {
    let body = b"solo".to_vec();
    let body_blob = encode_body_blob(&body);
    let assembled = assemble_pair(&body_blob, &None).expect("body alone must decode");
    assert_eq!(assembled.0, body);
    assert!(assembled.1.is_empty());
}

#[test]
fn test_pair_corrupt_meta_degrades_to_empty_headers() {
    let body = b"solo".to_vec();
    let body_blob = encode_body_blob(&body);
    let assembled =
        assemble_pair(&body_blob, &Some(b"junk".to_vec())).expect("body alone must decode");
    assert_eq!(assembled.0, body);
    assert!(assembled.1.is_empty());
    assert!(decode_meta_blob(b"junk").is_none());
}

#[test]
fn test_encoded_record_is_real_gzip() {
    let blob = encode_record(&b"hello".to_vec(), &vec![]);
    // The gzip magic bytes, per RFC 1952.
    assert_eq!(&blob[0..2], &[0x1f, 0x8b]);
}

#[test]
fn test_decode_accepts_externally_gzipped_record() {
    // "aGVsbG8=" is the standard base64 of "hello".
    let text = r#"{"body":"aGVsbG8=","headers":[["a","b"]]}"#;
    let mut encoder = GzEncoder::new(Vec::new(), Compression::default());
    encoder.write_all(text.as_bytes()).unwrap();
    let compressed = encoder.finish().unwrap();

    let (body, headers) = decode_record(&compressed).expect("a canonical record decodes");
    assert_eq!(body, b"hello".to_vec());
    assert_eq!(headers, vec![("a".to_string(), "b".to_string())]);
}

#[test]
fn test_build_local_cache_path() {
    assert_eq!(build_local_cache_path("app", "abc"), "storage/cache/app/abc.gz");
}

#[test]
fn test_object_paths() {
    assert_eq!(object_path("app", "k"), "cache/app/k");
    assert_eq!(object_data_path("app", "k"), "cache/app/k.gz");
    assert_eq!(object_meta_path("app", "k"), "cache/app/k.meta.gz");
}

#[test]
fn test_plan_store_single_blob_backends() {
    let body = b"x".to_vec();
    let headers = vec![];
    let plans = plan_store(StorageBackend::Gcs, "app", "k", &body, &headers);
    assert_eq!(plans.len(), 1);
    assert_eq!(plans[0].path, "cache/app/k");

    let plans = plan_store(StorageBackend::Local, "app", "k", &body, &headers);
    assert_eq!(plans.len(), 1);
    assert_eq!(plans[0].path, "storage/cache/app/k.gz");
    let decoded = decode_record(&plans[0].data).expect("planned blob decodes");
    assert_eq!(decoded.0, body);
}

#[test]
fn test_plan_store_paired_backend() {
    let body = b"x".to_vec();
    let headers = vec![("h".to_string(), "v".to_string())];
    let plans = plan_store(StorageBackend::S3, "app", "k", &body, &headers);
    assert_eq!(plans.len(), 2);
    assert_eq!(plans[0].path, "cache/app/k.gz");
    assert_eq!(plans[1].path, "cache/app/k.meta.gz");
    let assembled =
        assemble_pair(&plans[0].data, &Some(plans[1].data.clone())).expect("pair decodes");
    assert_eq!(assembled.0, body);
    assert_eq!(assembled.1, headers);
}
