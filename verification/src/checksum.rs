use vstd::prelude::*;

use crate::error::S3ErrorCode;
use crate::strings::str_eq;
use crate::strmap::StrMap;

verus! {

/// Base64 of the big-endian CRC-32 of a byte sequence, as the checksum
/// engine produces it. A function of the input alone.
pub uninterp spec fn crc32_b64_of(bytes: Seq<u8>) -> Seq<char>;

/// Base64 of the big-endian CRC-32C of a byte sequence.
pub uninterp spec fn crc32c_b64_of(bytes: Seq<u8>) -> Seq<char>;

/// Base64 of the SHA-1 digest of a byte sequence.
pub uninterp spec fn sha1_b64_of(bytes: Seq<u8>) -> Seq<char>;

/// Base64 of the SHA-256 digest of a byte sequence.
pub uninterp spec fn sha256_b64_of(bytes: Seq<u8>) -> Seq<char>;

/// Relies on s3s::checksum::ChecksumHasher with only the CRC-32 channel
/// enabled: the base64 encoding of the big-endian CRC-32 of the input.
#[verifier::external_body]
fn crc32_base64(data: &[u8]) -> (r: String)
    ensures
        r@ == crc32_b64_of(data@),
{
    let mut h = s3s::checksum::ChecksumHasher::default();
    h.crc32 = Some(Default::default());
    h.update(data);
    h.finalize().checksum_crc32.unwrap_or_default()
}

/// Relies on s3s::checksum::ChecksumHasher with only the CRC-32C channel
/// enabled: the base64 encoding of the big-endian CRC-32C of the input.
#[verifier::external_body]
fn crc32c_base64(data: &[u8]) -> (r: String)
    ensures
        r@ == crc32c_b64_of(data@),
{
    let mut h = s3s::checksum::ChecksumHasher::default();
    h.crc32c = Some(Default::default());
    h.update(data);
    h.finalize().checksum_crc32c.unwrap_or_default()
}

/// Relies on s3s::checksum::ChecksumHasher with only the SHA-1 channel
/// enabled: the base64 encoding of the SHA-1 digest of the input.
#[verifier::external_body]
fn sha1_base64(data: &[u8]) -> (r: String)
    ensures
        r@ == sha1_b64_of(data@),
{
    let mut h = s3s::checksum::ChecksumHasher::default();
    h.sha1 = Some(Default::default());
    h.update(data);
    h.finalize().checksum_sha1.unwrap_or_default()
}

/// Relies on s3s::checksum::ChecksumHasher with only the SHA-256 channel
/// enabled: the base64 encoding of the SHA-256 digest of the input.
#[verifier::external_body]
fn sha256_base64(data: &[u8]) -> (r: String)
    ensures
        r@ == sha256_b64_of(data@),
{
    let mut h = s3s::checksum::ChecksumHasher::default();
    h.sha256 = Some(Default::default());
    h.update(data);
    h.finalize().checksum_sha256.unwrap_or_default()
}

/// The ghost value of a checksum set: one optional encoded digest per
/// supported algorithm.
pub ghost struct ChecksumV {
    pub crc32: Option<Seq<char>>,
    pub crc32c: Option<Seq<char>>,
    pub sha1: Option<Seq<char>>,
    pub sha256: Option<Seq<char>>,
}

/// The checksum set of one object: the four optional S3 algorithm values,
/// each a base64-encoded digest.
#[derive(Debug, Clone, PartialEq, Eq)]
pub struct Checksum {
    pub checksum_crc32: Option<String>,
    pub checksum_crc32c: Option<String>,
    pub checksum_sha1: Option<String>,
    pub checksum_sha256: Option<String>,
}

/// The ghost value of an optional string.
pub open spec fn opt_view(o: Option<String>) -> Option<Seq<char>> {
    match o {
        Some(s) => Some(s@),
        None => None,
    }
}

/// The ghost value of an optional borrowed string.
pub open spec fn opt_ref_view(o: Option<&String>) -> Option<Seq<char>> {
    match o {
        Some(s) => Some(s@),
        None => None,
    }
}

impl View for Checksum {
    type V = ChecksumV;

    open spec fn view(&self) -> ChecksumV {
        ChecksumV {
            crc32: opt_view(self.checksum_crc32),
            crc32c: opt_view(self.checksum_crc32c),
            sha1: opt_view(self.checksum_sha1),
            sha256: opt_view(self.checksum_sha256),
        }
    }
}

impl Checksum {
    /// A checksum set with no algorithm enabled.
    pub fn none() -> (r: Checksum)
        ensures
            r@.crc32 is None,
            r@.crc32c is None,
            r@.sha1 is None,
            r@.sha256 is None,
    {
        Checksum {
            checksum_crc32: None,
            checksum_crc32c: None,
            checksum_sha1: None,
            checksum_sha256: None,
        }
    }
}

/// Which checksum channels are enabled for one write.
pub struct ChecksumHasher {
    pub crc32: bool,
    pub crc32c: bool,
    pub sha1: bool,
    pub sha256: bool,
}

/// Enables one checksum channel for each client-supplied checksum.
pub fn init_checksum_hasher(
    crc32: Option<&String>,
    crc32c: Option<&String>,
    sha1: Option<&String>,
    sha256: Option<&String>,
) -> (r: ChecksumHasher)
    ensures
        r.crc32 == crc32.is_some(),
        r.crc32c == crc32c.is_some(),
        r.sha1 == sha1.is_some(),
        r.sha256 == sha256.is_some(),
{
    ChecksumHasher {
        crc32: crc32.is_some(),
        crc32c: crc32c.is_some(),
        sha1: sha1.is_some(),
        sha256: sha256.is_some(),
    }
}

/// Runs the enabled channels over a full body and returns the encoded digests.
pub fn compute_checksums(data: &[u8], hasher: &ChecksumHasher) -> (r: Checksum)
    ensures
        r@.crc32 == (if hasher.crc32 {
            Some(crc32_b64_of(data@))
        } else {
            None::<Seq<char>>
        }),
        r@.crc32c == (if hasher.crc32c {
            Some(crc32c_b64_of(data@))
        } else {
            None::<Seq<char>>
        }),
        r@.sha1 == (if hasher.sha1 {
            Some(sha1_b64_of(data@))
        } else {
            None::<Seq<char>>
        }),
        r@.sha256 == (if hasher.sha256 {
            Some(sha256_b64_of(data@))
        } else {
            None::<Seq<char>>
        }),
{
    let checksum_crc32 = if hasher.crc32 {
        Some(crc32_base64(data))
    } else {
        None
    };
    let checksum_crc32c = if hasher.crc32c {
        Some(crc32c_base64(data))
    } else {
        None
    };
    let checksum_sha1 = if hasher.sha1 {
        Some(sha1_base64(data))
    } else {
        None
    };
    let checksum_sha256 = if hasher.sha256 {
        Some(sha256_base64(data))
    } else {
        None
    };
    Checksum { checksum_crc32, checksum_crc32c, checksum_sha1, checksum_sha256 }
}

/// Whether two optional strings hold the same value.
pub open spec fn opt_eq(a: Option<Seq<char>>, b: Option<Seq<char>>) -> bool {
    match (a, b) {
        (Some(x), Some(y)) => x == y,
        (None, None) => true,
        _ => false,
    }
}

/// Compares one computed optional checksum against the supplied one.
fn opt_str_eq(a: &Option<String>, b: Option<&String>) -> (r: bool)
    ensures
        r == opt_eq(opt_view(*a), opt_ref_view(b)),
{
    match (a, b) {
        (Some(x), Some(y)) => str_eq(x.as_str(), y.as_str()),
        (None, None) => true,
        _ => false,
    }
}

/// After finalize, each computed value must equal the client-supplied value
/// exactly, field by field, `None == None` passing. Any mismatch fails with
/// `BadDigest`.
pub fn validate_checksums(
    checksum: &Checksum,
    crc32: Option<&String>,
    crc32c: Option<&String>,
    sha1: Option<&String>,
    sha256: Option<&String>,
) -> (r: Result<(), S3ErrorCode>)
    ensures
        r is Ok <==> {
            &&& opt_eq(checksum@.crc32, opt_ref_view(crc32))
            &&& opt_eq(checksum@.crc32c, opt_ref_view(crc32c))
            &&& opt_eq(checksum@.sha1, opt_ref_view(sha1))
            &&& opt_eq(checksum@.sha256, opt_ref_view(sha256))
        },
        r is Err ==> r->Err_0 == S3ErrorCode::BadDigest,
{
    if !opt_str_eq(&checksum.checksum_crc32, crc32) {
        return Err(S3ErrorCode::BadDigest);
    }
    if !opt_str_eq(&checksum.checksum_crc32c, crc32c) {
        return Err(S3ErrorCode::BadDigest);
    }
    if !opt_str_eq(&checksum.checksum_sha1, sha1) {
        return Err(S3ErrorCode::BadDigest);
    }
    if !opt_str_eq(&checksum.checksum_sha256, sha256) {
        return Err(S3ErrorCode::BadDigest);
    }
    Ok(())
}

/// The catalog key of the CRC-32 value.
pub open spec fn key_crc32() -> Seq<char> {
    "checksum_crc32"@
}

/// The catalog key of the CRC-32C value.
pub open spec fn key_crc32c() -> Seq<char> {
    "checksum_crc32c"@
}

/// The catalog key of the SHA-1 value.
pub open spec fn key_sha1() -> Seq<char> {
    "checksum_sha1"@
}

/// The catalog key of the SHA-256 value.
pub open spec fn key_sha256() -> Seq<char> {
    "checksum_sha256"@
}

/// Inserts an optional value under a key; absent values leave the map as is.
pub open spec fn insert_opt(
    m: Map<Seq<char>, Seq<char>>,
    k: Seq<char>,
    v: Option<Seq<char>>,
) -> Map<Seq<char>, Seq<char>> {
    match v {
        Some(s) => m.insert(k, s),
        None => m,
    }
}

/// The internal info map after recording a checksum set: each present
/// algorithm value is stored under its catalog key.
pub open spec fn record_checksums(m: Map<Seq<char>, Seq<char>>, c: ChecksumV) -> Map<
    Seq<char>,
    Seq<char>,
> {
    insert_opt(
        insert_opt(insert_opt(insert_opt(m, key_crc32(), c.crc32), key_crc32c(), c.crc32c), key_sha1(), c.sha1),
        key_sha256(),
        c.sha256,
    )
}

/// Stores each present checksum value into the internal info map under its
/// catalog key.
pub fn modify_internal_info(info: &mut StrMap, checksum: &Checksum)
    requires
        old(info).wf(),
    ensures
        final(info).wf(),
        final(info).spec_map() == record_checksums(old(info).spec_map(), checksum@),
{
    if let Some(checksum_crc32) = &checksum.checksum_crc32 {
        info.insert(new_string("checksum_crc32"), checksum_crc32.clone());
    }
    if let Some(checksum_crc32c) = &checksum.checksum_crc32c {
        info.insert(new_string("checksum_crc32c"), checksum_crc32c.clone());
    }
    if let Some(checksum_sha1) = &checksum.checksum_sha1 {
        info.insert(new_string("checksum_sha1"), checksum_sha1.clone());
    }
    if let Some(checksum_sha256) = &checksum.checksum_sha256 {
        info.insert(new_string("checksum_sha256"), checksum_sha256.clone());
    }
}

/// The optional value a map holds under a key.
pub open spec fn map_get_opt(m: Map<Seq<char>, Seq<char>>, k: Seq<char>) -> Option<Seq<char>> {
    if m.contains_key(k) {
        Some(m[k])
    } else {
        None
    }
}

/// Reads the four checksum values back out of the internal info map.
pub fn from_internal_info(info: &StrMap) -> (r: Checksum)
    requires
        info.wf(),
    ensures
        r@.crc32 == map_get_opt(info.spec_map(), key_crc32()),
        r@.crc32c == map_get_opt(info.spec_map(), key_crc32c()),
        r@.sha1 == map_get_opt(info.spec_map(), key_sha1()),
        r@.sha256 == map_get_opt(info.spec_map(), key_sha256()),
{
    let checksum_crc32 = match info.get("checksum_crc32") {
        Some(v) => Some(v.clone()),
        None => None,
    };
    let checksum_crc32c = match info.get("checksum_crc32c") {
        Some(v) => Some(v.clone()),
        None => None,
    };
    let checksum_sha1 = match info.get("checksum_sha1") {
        Some(v) => Some(v.clone()),
        None => None,
    };
    let checksum_sha256 = match info.get("checksum_sha256") {
        Some(v) => Some(v.clone()),
        None => None,
    };
    Checksum { checksum_crc32, checksum_crc32c, checksum_sha1, checksum_sha256 }
}

/// Makes an owned string from a literal.
fn new_string(s: &str) -> (r: String)
    ensures
        r@ == s@,
{
    s.to_owned()
}

/// The four catalog keys are pairwise distinct.
pub proof fn lemma_checksum_keys_distinct()
    ensures
        key_crc32() != key_crc32c(),
        key_crc32() != key_sha1(),
        key_crc32() != key_sha256(),
        key_crc32c() != key_sha1(),
        key_crc32c() != key_sha256(),
        key_sha1() != key_sha256(),
{
    reveal_strlit("checksum_crc32");
    reveal_strlit("checksum_crc32c");
    reveal_strlit("checksum_sha1");
    reveal_strlit("checksum_sha256");
    assert(key_crc32().len() == 14);
    assert(key_crc32c().len() == 15);
    assert(key_sha1().len() == 13);
    assert(key_sha256().len() == 15);
    assert(key_crc32c()[9] == 'c');
    assert(key_sha256()[9] == 's');
}

/// Recording a checksum set into an internal info map that holds none of the
/// four catalog keys, then reading it back, returns the same checksum set.
pub proof fn lemma_internal_info_round_trip(m: Map<Seq<char>, Seq<char>>, c: ChecksumV)
    requires
        !m.contains_key(key_crc32()),
        !m.contains_key(key_crc32c()),
        !m.contains_key(key_sha1()),
        !m.contains_key(key_sha256()),
    ensures
        map_get_opt(record_checksums(m, c), key_crc32()) == c.crc32,
        map_get_opt(record_checksums(m, c), key_crc32c()) == c.crc32c,
        map_get_opt(record_checksums(m, c), key_sha1()) == c.sha1,
        map_get_opt(record_checksums(m, c), key_sha256()) == c.sha256,
{
    lemma_checksum_keys_distinct();
}

} // verus!
