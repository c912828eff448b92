use beggar::checksum::{
    from_internal_info, init_checksum_hasher, modify_internal_info, validate_checksums, Checksum,
};
use beggar::json::metadata_from_string;
use beggar::strmap::StrMap;

#[test]
fn test_modify_internal_info() {
    let mut info = StrMap::new();
    let checksum = Checksum {
        checksum_crc32: Some("crc32".to_string()),
        checksum_crc32c: Some("crc32c".to_string()),
        checksum_sha1: Some("sha1".to_string()),
        checksum_sha256: Some("sha256".to_string()),
    };

    modify_internal_info(&mut info, &checksum);

    assert_eq!(info.get("checksum_crc32"), Some(&"crc32".to_string()));
    assert_eq!(info.get("checksum_crc32c"), Some(&"crc32c".to_string()));
    assert_eq!(info.get("checksum_sha1"), Some(&"sha1".to_string()));
    assert_eq!(info.get("checksum_sha256"), Some(&"sha256".to_string()));
}

#[test]
fn test_from_internal_info() {
    let info = metadata_from_string(
        r#"{
            "checksum_crc32": "crc32",
            "checksum_crc32c": "crc32c",
            "checksum_sha1": "sha1",
            "checksum_sha256": "sha256"
        }"#,
    );

    let checksum = from_internal_info(&info);

    assert_eq!(checksum.checksum_crc32, Some("crc32".to_string()));
    assert_eq!(checksum.checksum_crc32c, Some("crc32c".to_string()));
    assert_eq!(checksum.checksum_sha1, Some("sha1".to_string()));
    assert_eq!(checksum.checksum_sha256, Some("sha256".to_string()));
}

#[test]
fn test_from_internal_info_missing_fields() {
    let info = metadata_from_string(r"{}");
    let checksum = from_internal_info(&info);

    assert_eq!(checksum.checksum_crc32, None);
    assert_eq!(checksum.checksum_crc32c, None);
    assert_eq!(checksum.checksum_sha1, None);
    assert_eq!(checksum.checksum_sha256, None);
}

#[test]
fn test_init_checksum_hasher() {
    let crc32 = Some("crc32".to_string());
    let crc32c = Some("crc32c".to_string());
    let sha1 = Some("sha1".to_string());
    let sha256 = Some("sha256".to_string());

    let checksum_hasher =
        init_checksum_hasher(crc32.as_ref(), crc32c.as_ref(), sha1.as_ref(), sha256.as_ref());

    assert!(checksum_hasher.crc32);
    assert!(checksum_hasher.crc32c);
    assert!(checksum_hasher.sha1);
    assert!(checksum_hasher.sha256);

    let checksum_hasher = init_checksum_hasher(None, None, None, None);

    assert!(!checksum_hasher.crc32);
    assert!(!checksum_hasher.crc32c);
    assert!(!checksum_hasher.sha1);
    assert!(!checksum_hasher.sha256);
}

#[test]
fn test_validate_checksums() {
    let crc32 = Some("crc32".to_string());
    let crc32c = Some("crc32c".to_string());
    let sha1 = Some("sha1".to_string());
    let sha256 = Some("sha256".to_string());

    let checksum = Checksum {
        checksum_crc32: Some("crc32".to_string()),
        checksum_crc32c: Some("crc32c".to_string()),
        checksum_sha1: Some("sha1".to_string()),
        checksum_sha256: Some("sha256".to_string()),
    };

    let result =
        validate_checksums(&checksum, crc32.as_ref(), crc32c.as_ref(), sha1.as_ref(), sha256.as_ref());
    assert!(result.is_ok());

    let checksum = Checksum {
        checksum_crc32: Some("wrong_crc32".to_string()),
        checksum_crc32c: Some("crc32c".to_string()),
        checksum_sha1: Some("sha1".to_string()),
        checksum_sha256: Some("sha256".to_string()),
    };
    let result =
        validate_checksums(&checksum, crc32.as_ref(), crc32c.as_ref(), sha1.as_ref(), sha256.as_ref());
    assert!(result.is_err());

    let checksum = Checksum {
        checksum_crc32: Some("crc32".to_string()),
        checksum_crc32c: Some("wrong_crc32c".to_string()),
        checksum_sha1: Some("sha1".to_string()),
        checksum_sha256: Some("sha256".to_string()),
    };
    let result =
        validate_checksums(&checksum, crc32.as_ref(), crc32c.as_ref(), sha1.as_ref(), sha256.as_ref());
    assert!(result.is_err());

    let checksum = Checksum {
        checksum_crc32: Some("crc32".to_string()),
        checksum_crc32c: Some("crc32c".to_string()),
        checksum_sha1: Some("wrong_sha1".to_string()),
        checksum_sha256: Some("sha256".to_string()),
    };
    let result =
        validate_checksums(&checksum, crc32.as_ref(), crc32c.as_ref(), sha1.as_ref(), sha256.as_ref());
    assert!(result.is_err());

    let checksum = Checksum {
        checksum_crc32: Some("crc32".to_string()),
        checksum_crc32c: Some("crc32c".to_string()),
        checksum_sha1: Some("sha1".to_string()),
        checksum_sha256: Some("wrong_sha256".to_string()),
    };
    let result =
        validate_checksums(&checksum, crc32.as_ref(), crc32c.as_ref(), sha1.as_ref(), sha256.as_ref());
    assert!(result.is_err());
}
