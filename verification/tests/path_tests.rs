use beggar::backend::StorageBackend;
use beggar::catalog::Catalog;
use beggar::disk::Disk;
use beggar::path::{resolve_abs_path, validate_s3_key};

fn backend() -> StorageBackend {
    StorageBackend::new("/data".to_string(), Catalog::new(), Disk::new())
}

#[test]
fn test_resolve_upload_part_path() {
    let backend = backend();
    let upload_id = uuid::Uuid::new_v4().to_string();
    let part_number = 1;
    let path = backend.resolve_upload_part_path(upload_id.as_str(), part_number);
    let expected_path = format!("/data/.upload_id-{upload_id}.part-{part_number}");
    assert_eq!(path, expected_path);
}

#[test]
fn test_get_object_path() {
    let backend = backend();
    let bucket = "test_bucket";
    let key = "test_key.txt";
    let path = backend.get_object_path(bucket, key).unwrap();
    let expected_path = "/data/test_bucket/test_key.txt".to_string();
    assert_eq!(path, expected_path);
}

#[test]
fn test_get_bucket_path() {
    let backend = backend();
    let bucket = "test_bucket";
    let path = backend.get_bucket_path(bucket).unwrap();
    let expected_path = "/data/test_bucket".to_string();
    assert_eq!(path, expected_path);
}

#[test]
fn resolve_normalizes_dot_components() {
    assert_eq!(resolve_abs_path("/r", "a/b").unwrap(), "/r/a/b");
    assert_eq!(resolve_abs_path("/r", "a/./b").unwrap(), "/r/a/b");
    assert_eq!(resolve_abs_path("/r", "a//b").unwrap(), "/r/a/b");
    assert_eq!(resolve_abs_path("/r", "a/x/../b").unwrap(), "/r/a/b");
    assert_eq!(resolve_abs_path("/r", "").unwrap(), "/r");
    assert_eq!(resolve_abs_path("/r", "a/..").unwrap(), "/r");
}

#[test]
fn resolve_rejects_escapes() {
    assert!(resolve_abs_path("/r", "..").is_err());
    assert!(resolve_abs_path("/r", "a/../..").is_err());
    assert!(resolve_abs_path("/r", "../x").is_err());
    assert!(resolve_abs_path("/r", "/abs/path").is_err());
}

#[test]
fn key_validation_accepts_plain_keys() {
    assert!(validate_s3_key("a"));
    assert!(validate_s3_key("dir/file.txt"));
    assert!(validate_s3_key("dir/"));
}

#[test]
fn key_validation_rejects_bad_keys() {
    assert!(!validate_s3_key(""));
    assert!(!validate_s3_key("a/../b"));
    assert!(!validate_s3_key("./a"));
    assert!(!validate_s3_key("a//b"));
    assert!(!validate_s3_key("a\u{0007}b"));
    let long = "x".repeat(1025);
    assert!(!validate_s3_key(&long));
    let just_fits = "x".repeat(1024);
    assert!(validate_s3_key(&just_fits));
}

#[test]
fn startup_sweep_removes_stage_files_only() {
    let mut disk = Disk::new();
    disk.write("/data/b/k".to_string(), b"payload".to_vec());
    disk.write("/data/.tmp.3.internal.part".to_string(), b"junk".to_vec());
    let backend = StorageBackend::new("/data".to_string(), Catalog::new(), disk);
    assert!(backend.file_exists("/data/b/k"));
    assert!(!backend.file_exists("/data/.tmp.3.internal.part"));
}
