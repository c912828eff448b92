use beggar::backend::StorageBackend;
use beggar::catalog::Catalog;
use beggar::disk::Disk;
use beggar::error::S3ErrorCode;
use beggar::hash::md5_hex;
use beggar::s3::{
    AbortMultipartUploadInput, CompleteMultipartUploadInput, CompletedMultipartUpload,
    CompletedPart, CreateMultipartUploadInput, GetBucketLocationInput, GetObjectInput,
    HeadBucketInput, HeadObjectInput, ListObjectsV2Input, ListPartsInput, PutObjectInput, Range,
    UploadPartInput,
};
use beggar::strmap::StrMap;
use beggar::types::Credentials;

fn backend() -> StorageBackend {
    StorageBackend::new("/data".to_string(), Catalog::new(), Disk::new())
}

fn put_input(bucket: &str, key: &str, body: &[u8]) -> PutObjectInput {
    PutObjectInput {
        body: Some(body.to_vec()),
        bucket: bucket.to_string(),
        key: key.to_string(),
        metadata: None,
        content_length: Some(body.len() as i64),
        checksum_crc32: None,
        checksum_crc32c: None,
        checksum_sha1: None,
        checksum_sha256: None,
    }
}

fn get_input(bucket: &str, key: &str, range: Option<Range>) -> GetObjectInput {
    GetObjectInput { bucket: bucket.to_string(), key: key.to_string(), range }
}

fn creds(ak: &str) -> Credentials {
    Credentials { access_key: ak.to_string(), secret_key: "secret".to_string() }
}

#[test]
fn put_then_get_returns_body_and_etag() {
    let mut b = backend();
    let out = b.put_object(put_input("b", "k", b"hello"), 7).unwrap();
    assert_eq!(out.e_tag, Some("5d41402abc4b2a76b9719d911017c592".to_string()));

    let got = b.get_object(get_input("b", "k", None)).unwrap();
    assert_eq!(got.body, b"hello".to_vec());
    assert_eq!(got.content_length, 5);
    assert_eq!(got.e_tag, Some("5d41402abc4b2a76b9719d911017c592".to_string()));
    assert_eq!(got.last_modified, 7);
    assert_eq!(got.content_range, None);
}

#[test]
fn second_put_overwrites() {
    let mut b = backend();
    b.put_object(put_input("b", "k", b"first"), 1).unwrap();
    b.put_object(put_input("b", "k", b"second"), 2).unwrap();
    let got = b.get_object(get_input("b", "k", None)).unwrap();
    assert_eq!(got.body, b"second".to_vec());
}

#[test]
fn put_with_bad_sha256_fails_bad_digest() {
    let mut b = backend();
    let mut input = put_input("b", "k", b"hello");
    input.checksum_sha256 = Some("AAAA".to_string());
    let err = b.put_object(input, 1).unwrap_err();
    assert_eq!(err, S3ErrorCode::BadDigest);

    let got = b.get_object(get_input("b", "k", None));
    assert_eq!(got.err(), Some(S3ErrorCode::NoSuchKey));
    assert!(!b.file_exists("/data/b/k"));
}

#[test]
fn put_with_correct_sha256_succeeds_and_echoes() {
    let mut b = backend();
    let mut input = put_input("b", "k", b"hello");
    let expected = "LPJNul+wow4m6DsqxbninhsWHlwfp0JecwQzYpOLmCQ=".to_string();
    input.checksum_sha256 = Some(expected.clone());
    let out = b.put_object(input, 1).unwrap();
    assert_eq!(out.checksum.checksum_sha256, Some(expected.clone()));

    let got = b.get_object(get_input("b", "k", None)).unwrap();
    assert_eq!(got.checksum.checksum_sha256, Some(expected));
}

#[test]
fn put_with_all_correct_checksums_succeeds() {
    let mut b = backend();
    let mut input = put_input("b", "k", b"hello");
    input.checksum_crc32 = Some("NhCmhg==".to_string());
    input.checksum_crc32c = Some("mnG7TA==".to_string());
    input.checksum_sha1 = Some("qvTGHdzF6KLavt4PO0gs2a6pQ00=".to_string());
    input.checksum_sha256 = Some("LPJNul+wow4m6DsqxbninhsWHlwfp0JecwQzYpOLmCQ=".to_string());
    let out = b.put_object(input, 1).unwrap();
    assert_eq!(out.checksum.checksum_crc32, Some("NhCmhg==".to_string()));
    assert_eq!(out.checksum.checksum_crc32c, Some("mnG7TA==".to_string()));
    assert_eq!(out.checksum.checksum_sha1, Some("qvTGHdzF6KLavt4PO0gs2a6pQ00=".to_string()));

    let got = b.get_object(get_input("b", "k", None)).unwrap();
    assert_eq!(got.checksum.checksum_crc32, Some("NhCmhg==".to_string()));
}

#[test]
fn put_with_wrong_crc32_fails_bad_digest() {
    let mut b = backend();
    let mut input = put_input("b", "k", b"hello");
    input.checksum_crc32 = Some("AAAAAA==".to_string());
    assert_eq!(b.put_object(input, 1).unwrap_err(), S3ErrorCode::BadDigest);
}

#[test]
fn put_metadata_round_trips_through_get() {
    let mut b = backend();
    let mut meta = StrMap::new();
    meta.insert("owner".to_string(), "tester".to_string());
    let mut input = put_input("b", "k", b"x");
    input.metadata = Some(meta.clone());
    b.put_object(input, 1).unwrap();
    let got = b.get_object(get_input("b", "k", None)).unwrap();
    assert_eq!(got.metadata, Some(meta));
}

#[test]
fn put_body_missing_is_incomplete() {
    let mut b = backend();
    let mut input = put_input("b", "k", b"");
    input.body = None;
    assert_eq!(b.put_object(input, 1).unwrap_err(), S3ErrorCode::IncompleteBody);
}

#[test]
fn put_invalid_key_rejected() {
    let mut b = backend();
    let err = b.put_object(put_input("b", "a/../secret", b"x"), 1).unwrap_err();
    assert_eq!(err, S3ErrorCode::InvalidRequest);
}

#[test]
fn directory_key_creates_directory() {
    let mut b = backend();
    let mut input = put_input("b", "dir/", b"");
    input.content_length = Some(0);
    let out = b.put_object(input, 1).unwrap();
    assert_eq!(out.e_tag, None);
    assert!(b.path_exists("/data/b/dir"));

    let mut input = put_input("b", "dir/", b"hello");
    input.content_length = Some(5);
    assert_eq!(b.put_object(input, 1).unwrap_err(), S3ErrorCode::UnexpectedContent);
}

#[test]
fn range_get_middle_window() {
    let mut b = backend();
    let body: Vec<u8> = (0..1000u32).map(|i| (i % 251) as u8).collect();
    b.put_object(put_input("b", "big", &body), 1).unwrap();
    let got = b
        .get_object(get_input("b", "big", Some(Range::Int { first: 100, last: Some(199) })))
        .unwrap();
    assert_eq!(got.body, body[100..200].to_vec());
    assert_eq!(got.content_length, 100);
    assert_eq!(got.content_range, Some("bytes 100-199/1000".to_string()));
}

#[test]
fn range_get_open_end() {
    let mut b = backend();
    b.put_object(put_input("b", "k", b"0123456789"), 1).unwrap();
    let got = b
        .get_object(get_input("b", "k", Some(Range::Int { first: 4, last: None })))
        .unwrap();
    assert_eq!(got.body, b"456789".to_vec());
    assert_eq!(got.content_range, Some("bytes 4-9/10".to_string()));
}

#[test]
fn range_get_suffix() {
    let mut b = backend();
    b.put_object(put_input("b", "k", b"0123456789"), 1).unwrap();
    let got = b
        .get_object(get_input("b", "k", Some(Range::Suffix { length: 3 })))
        .unwrap();
    assert_eq!(got.body, b"789".to_vec());
    assert_eq!(got.content_range, Some("bytes 7-9/10".to_string()));
}

#[test]
fn range_get_unsatisfiable() {
    let mut b = backend();
    b.put_object(put_input("b", "k", b"abc"), 1).unwrap();
    let err = b
        .get_object(get_input("b", "k", Some(Range::Int { first: 9, last: None })))
        .unwrap_err();
    assert_eq!(err, S3ErrorCode::RangeNotSatisfiable);
}

#[test]
fn get_missing_key_is_no_such_key() {
    let b = backend();
    assert_eq!(
        b.get_object(get_input("b", "missing", None)).unwrap_err(),
        S3ErrorCode::NoSuchKey
    );
}

#[test]
fn head_object_reports_length_and_etag() {
    let mut b = backend();
    b.put_object(put_input("b", "k", b"hello"), 3).unwrap();
    let head = b
        .head_object(HeadObjectInput { bucket: "b".to_string(), key: "k".to_string() })
        .unwrap();
    assert_eq!(head.content_length, 5);
    assert_eq!(head.e_tag, Some("5d41402abc4b2a76b9719d911017c592".to_string()));
    assert_eq!(head.last_modified, 3);
}

#[test]
fn bucket_presence() {
    let mut b = backend();
    assert_eq!(
        b.head_bucket(HeadBucketInput { bucket: "b".to_string() }).unwrap_err(),
        S3ErrorCode::NoSuchBucket
    );
    b.put_object(put_input("b", "k", b"x"), 1).unwrap();
    assert!(b.head_bucket(HeadBucketInput { bucket: "b".to_string() }).is_ok());
    assert!(b
        .get_bucket_location(GetBucketLocationInput { bucket: "b".to_string() })
        .is_ok());
}

#[test]
fn list_objects_returns_all_keys_sorted() {
    let mut b = backend();
    b.put_object(put_input("b", "banana", b"1"), 1).unwrap();
    b.put_object(put_input("b", "apple", b"2"), 1).unwrap();
    b.put_object(put_input("b", "cherry", b"3"), 1).unwrap();
    let out = b
        .list_objects_v2(ListObjectsV2Input {
            bucket: "b".to_string(),
            prefix: None,
            delimiter: None,
            encoding_type: None,
        })
        .unwrap();
    let keys: Vec<String> = out.contents.iter().map(|o| o.key.clone()).collect();
    assert_eq!(keys, vec!["apple", "banana", "cherry"]);
    assert_eq!(out.key_count, 3);
    assert_eq!(out.max_keys, 3);
}

#[test]
fn list_objects_prefix_filters() {
    let mut b = backend();
    b.put_object(put_input("b", "logs/a", b"1"), 1).unwrap();
    b.put_object(put_input("b", "logs/b", b"2"), 1).unwrap();
    b.put_object(put_input("b", "data/c", b"3"), 1).unwrap();
    let out = b
        .list_objects_v2(ListObjectsV2Input {
            bucket: "b".to_string(),
            prefix: Some("logs/".to_string()),
            delimiter: None,
            encoding_type: None,
        })
        .unwrap();
    let keys: Vec<String> = out.contents.iter().map(|o| o.key.clone()).collect();
    assert_eq!(keys, vec!["logs/a", "logs/b"]);
}

#[test]
fn multipart_happy_path() {
    let mut b = backend();
    b.put_object(put_input("b", "seed", b"x"), 1).unwrap();
    let ak = creds("ak");
    let created = b
        .create_multipart_upload(
            CreateMultipartUploadInput {
                bucket: "b".to_string(),
                key: "k".to_string(),
                metadata: None,
            },
            Some(&ak),
            1,
        )
        .unwrap();
    let u = created.upload_id.clone();

    let p1 = b
        .upload_part(
            UploadPartInput { body: Some(b"aaaaa".to_vec()), upload_id: u.clone(), part_number: 1 },
            Some(&ak),
            2,
        )
        .unwrap();
    assert_eq!(p1.e_tag, Some(md5_hex(b"aaaaa")));
    b.upload_part(
        UploadPartInput { body: Some(b"bbbbb".to_vec()), upload_id: u.clone(), part_number: 2 },
        Some(&ak),
        2,
    )
    .unwrap();

    let listed = b
        .list_parts(ListPartsInput {
            bucket: "b".to_string(),
            key: "k".to_string(),
            upload_id: u.clone(),
        })
        .unwrap();
    assert_eq!(listed.parts.len(), 2);
    assert_eq!(listed.parts[0].part_number, 1);
    assert_eq!(listed.parts[1].part_number, 2);
    assert_eq!(listed.parts[0].size, 5);

    let completed = b
        .complete_multipart_upload(
            CompleteMultipartUploadInput {
                multipart_upload: Some(CompletedMultipartUpload {
                    parts: Some(vec![
                        CompletedPart { e_tag: None, part_number: Some(1) },
                        CompletedPart { e_tag: None, part_number: Some(2) },
                    ]),
                }),
                upload_id: u.clone(),
            },
            Some(&ak),
            3,
        )
        .unwrap();
    assert_eq!(completed.e_tag, Some(md5_hex(b"aaaaabbbbb")));

    let got = b.get_object(get_input("b", "k", None)).unwrap();
    assert_eq!(got.body, b"aaaaabbbbb".to_vec());

    assert!(b.datastore.get_multipart_upload_by_upload_id(&u).is_none());
    assert!(b.datastore.get_parts_by_upload_id(&u).is_empty());
    let part_path = b.resolve_upload_part_path(&u, 1);
    assert!(!b.file_exists(&part_path));
    let part_path = b.resolve_upload_part_path(&u, 2);
    assert!(!b.file_exists(&part_path));
}

#[test]
fn multipart_access_denied_for_other_key() {
    let mut b = backend();
    b.put_object(put_input("b", "seed", b"x"), 1).unwrap();
    let ak = creds("ak");
    let ak2 = creds("ak2");
    let created = b
        .create_multipart_upload(
            CreateMultipartUploadInput {
                bucket: "b".to_string(),
                key: "k".to_string(),
                metadata: None,
            },
            Some(&ak),
            1,
        )
        .unwrap();
    let u = created.upload_id.clone();

    let err = b
        .upload_part(
            UploadPartInput { body: Some(b"x".to_vec()), upload_id: u.clone(), part_number: 1 },
            Some(&ak2),
            2,
        )
        .unwrap_err();
    assert_eq!(err, S3ErrorCode::AccessDenied);
    assert!(b.datastore.get_parts_by_upload_id(&u).is_empty());
}

#[test]
fn multipart_abort_removes_everything() {
    let mut b = backend();
    b.put_object(put_input("b", "seed", b"x"), 1).unwrap();
    let ak = creds("ak");
    let created = b
        .create_multipart_upload(
            CreateMultipartUploadInput {
                bucket: "b".to_string(),
                key: "k".to_string(),
                metadata: None,
            },
            Some(&ak),
            1,
        )
        .unwrap();
    let u = created.upload_id.clone();
    b.upload_part(
        UploadPartInput { body: Some(b"x".to_vec()), upload_id: u.clone(), part_number: 1 },
        Some(&ak),
        2,
    )
    .unwrap();

    let aborted = b.abort_multipart_upload(
        AbortMultipartUploadInput {
            bucket: "b".to_string(),
            key: "k".to_string(),
            upload_id: u.clone(),
        },
        Some(&ak),
    );
    assert!(aborted.is_ok());
    assert!(b.datastore.get_multipart_upload_by_upload_id(&u).is_none());
    assert!(b.datastore.get_parts_by_upload_id(&u).is_empty());
    let part_path = b.resolve_upload_part_path(&u, 1);
    assert!(!b.file_exists(&part_path));

    let err = b
        .upload_part(
            UploadPartInput { body: Some(b"y".to_vec()), upload_id: u.clone(), part_number: 2 },
            Some(&ak),
            3,
        )
        .unwrap_err();
    assert_eq!(err, S3ErrorCode::AccessDenied);
}

#[test]
fn multipart_create_requires_credentials_and_bucket() {
    let mut b = backend();
    let err = b
        .create_multipart_upload(
            CreateMultipartUploadInput {
                bucket: "b".to_string(),
                key: "k".to_string(),
                metadata: None,
            },
            Some(&creds("ak")),
            1,
        )
        .unwrap_err();
    assert_eq!(err, S3ErrorCode::NoSuchBucket);

    b.put_object(put_input("b", "seed", b"x"), 1).unwrap();
    let err = b
        .create_multipart_upload(
            CreateMultipartUploadInput {
                bucket: "b".to_string(),
                key: "k".to_string(),
                metadata: None,
            },
            None,
            1,
        )
        .unwrap_err();
    assert_eq!(err, S3ErrorCode::AccessDenied);
}

#[test]
fn multipart_create_accepts_any_key_and_complete_validates() {
    let mut b = backend();
    b.put_object(put_input("b", "seed", b"x"), 1).unwrap();
    let ak = creds("ak");
    let created = b
        .create_multipart_upload(
            CreateMultipartUploadInput {
                bucket: "b".to_string(),
                key: "x/../y".to_string(),
                metadata: None,
            },
            Some(&ak),
            1,
        )
        .unwrap();
    let u = created.upload_id.clone();
    b.upload_part(
        UploadPartInput { body: Some(b"z".to_vec()), upload_id: u.clone(), part_number: 1 },
        Some(&ak),
        2,
    )
    .unwrap();
    let err = b
        .complete_multipart_upload(
            CompleteMultipartUploadInput {
                multipart_upload: Some(CompletedMultipartUpload {
                    parts: Some(vec![CompletedPart { e_tag: None, part_number: Some(1) }]),
                }),
                upload_id: u,
            },
            Some(&ak),
            3,
        )
        .unwrap_err();
    assert_eq!(err, S3ErrorCode::InternalError);
}

#[test]
fn listing_caps_at_query_limit() {
    let mut b = backend();
    let mut i = 0;
    while i < 1001 {
        let key = format!("k{:04}", i);
        b.put_object(put_input("b", &key, b"x"), 1).unwrap();
        i += 1;
    }
    let out = b
        .list_objects_v2(ListObjectsV2Input {
            bucket: "b".to_string(),
            prefix: None,
            delimiter: None,
            encoding_type: None,
        })
        .unwrap();
    assert_eq!(out.key_count, 1000);
    assert_eq!(out.contents.len(), 1000);
    assert_eq!(out.contents[0].key, "k0000");
    assert_eq!(out.contents[999].key, "k0999");
}

#[test]
fn upload_part_rejects_malformed_upload_id() {
    let mut b = backend();
    let err = b
        .upload_part(
            UploadPartInput {
                body: Some(b"x".to_vec()),
                upload_id: "not-a-uuid".to_string(),
                part_number: 1,
            },
            Some(&creds("ak")),
            1,
        )
        .unwrap_err();
    assert_eq!(err, S3ErrorCode::InvalidRequest);
}

#[test]
fn complete_requires_part_list() {
    let mut b = backend();
    let err = b
        .complete_multipart_upload(
            CompleteMultipartUploadInput { multipart_upload: None, upload_id: "x".to_string() },
            Some(&creds("ak")),
            1,
        )
        .unwrap_err();
    assert_eq!(err, S3ErrorCode::InvalidPart);
}

#[test]
fn list_parts_of_unknown_upload_fails() {
    let b = backend();
    let err = b
        .list_parts(ListPartsInput {
            bucket: "b".to_string(),
            key: "k".to_string(),
            upload_id: uuid::Uuid::new_v4().to_string(),
        })
        .unwrap_err();
    assert_eq!(err, S3ErrorCode::NoSuchUpload);
}

#[test]
fn list_buckets_lists_live_buckets() {
    let mut b = backend();
    b.put_object(put_input("alpha", "k", b"1"), 1).unwrap();
    b.put_object(put_input("beta", "k", b"2"), 1).unwrap();
    let out = b.list_buckets(beggar::s3::ListBucketsInput { marker: None });
    let names: Vec<String> = out.buckets.iter().map(|x| x.name.clone()).collect();
    assert_eq!(names, vec!["alpha", "beta"]);
}
