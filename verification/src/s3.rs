use vstd::prelude::*;

use crate::backend::{
    literal_object_path, is_part_path, spec_i32_dec, spec_part_path, StorageBackend,
};
use crate::catalog::{lookup_obj, lookup_upload};
use crate::checksum::{map_get_opt, key_crc32, key_crc32c, key_sha1, key_sha256, Checksum};
use crate::disk::Disk;
use crate::error::S3ErrorCode;
use crate::hash::spec_etag;
use crate::json::{spec_parse, try_metadata_from_string};
use crate::strings::{contains_seq, dec_str, dec_digit_char, has_prefix, occurs_at, push_str, u64_to_dec};
use crate::strmap::{entries_map, StrMap};
use crate::types::S3ItemDetailV;

verus! {

/// Whether a character occurs in a sequence.
pub open spec fn has_char(s: Seq<char>, c: char) -> bool {
    exists|i: int| 0 <= i < s.len() && s[i] == c
}

/// A one-character sequence occurs exactly where the character does.
pub proof fn lemma_contains_single(s: Seq<char>, c: char)
    ensures
        contains_seq(s, seq![c]) <==> has_char(s, c),
{
    if contains_seq(s, seq![c]) {
        let i = choose|i: int| occurs_at(s, seq![c], i);
        assert(s.subrange(i, i + 1)[0] == c);
        assert(s[i] == c);
    }
    if has_char(s, c) {
        let i = choose|i: int| 0 <= i < s.len() && s[i] == c;
        assert(s.subrange(i, i + 1) =~= seq![c]);
        assert(occurs_at(s, seq![c], i));
    }
}

/// A decimal representation holds only digit characters.
proof fn lemma_dec_str_digits(n: nat)
    ensures
        forall|i: int| 0 <= i < dec_str(n).len() ==> is_digit_char(#[trigger] dec_str(n)[i]),
    decreases n,
{
    if n < 10 {
        assert(dec_str(n) == seq![dec_digit_char(n)]);
        assert(is_digit_char(dec_digit_char(n)));
    } else {
        lemma_dec_str_digits(n / 10);
        assert(dec_str(n) == dec_str(n / 10).push(dec_digit_char(n % 10)));
        assert forall|i: int| 0 <= i < dec_str(n).len() implies is_digit_char(
            #[trigger] dec_str(n)[i],
        ) by {
            if i < dec_str(n).len() - 1 {
                assert(dec_str(n)[i] == dec_str(n / 10)[i]);
            } else {
                assert(dec_str(n)[i] == dec_digit_char(n % 10));
                assert(is_digit_char(dec_digit_char(n % 10)));
            }
        }
    }
}

/// Whether a character is a decimal digit.
pub open spec fn is_digit_char(c: char) -> bool {
    c == '0' || c == '1' || c == '2' || c == '3' || c == '4' || c == '5' || c == '6' || c == '7'
        || c == '8' || c == '9'
}

/// The conventional part path of an upload lies directly under the root.
pub proof fn lemma_part_path_shape(root: Seq<char>, u: Seq<char>, n: int)
    requires
        !contains_seq(u, seq!['/']),
    ensures
        is_part_path(root, spec_part_path(root, u, n)),
{
    let p = spec_part_path(root, u, n);
    reveal_strlit("/.upload_id-");
    reveal_strlit(".part-");
    assert(has_prefix(p, root + "/.upload_id-"@)) by {
        assert(p.subrange(0, root.len() as int + 12) =~= root + "/.upload_id-"@);
    }
    let tail = p.skip(root.len() as int + 1);
    assert(!contains_seq(tail, seq!['/'])) by {
        lemma_contains_single(tail, '/');
        lemma_contains_single(u, '/');
        if has_char(tail, '/') {
            let i = choose|i: int| 0 <= i < tail.len() && tail[i] == '/';
            assert(p[root.len() + 1 + i] == '/');
            let j = root.len() + 1 + i;
            assert(root.len() + 1 <= j < p.len());
            lemma_dec_str_digits(if n < 0 {
                (-n) as nat
            } else {
                n as nat
            });
            if j < root.len() + 12 {
                assert(p[j] == "/.upload_id-"@[j - root.len()]);
            } else if j < root.len() + 12 + u.len() {
                assert(p[j] == u[j - root.len() - 12]);
            } else if j < root.len() + 12 + u.len() + 6 {
                assert(p[j] == ".part-"@[j - root.len() - 12 - u.len()]);
            } else {
                assert(p[j] == spec_i32_dec(n)[j - root.len() - 12 - u.len() - 6]);
                if n < 0 {
                    let d = spec_i32_dec(n);
                    let w = j - root.len() - 12 - u.len() - 6;
                    if w == 0 {
                        assert(d[0] == '-');
                    } else {
                        assert(d[w] == dec_str((-n) as nat)[w - 1]);
                    }
                }
            }
            assert(false);
        }
    }
}

/// Distinct numbers have distinct decimal representations.
proof fn lemma_dec_str_injective(a: nat, b: nat)
    requires
        a != b,
    ensures
        dec_str(a) != dec_str(b),
    decreases a + b,
{
    if a < 10 && b < 10 {
        assert(dec_str(a) == seq![dec_digit_char(a)]);
        assert(dec_str(b) == seq![dec_digit_char(b)]);
        assert(dec_digit_char(a) != dec_digit_char(b));
        assert(dec_str(a)[0] != dec_str(b)[0]);
    } else if a < 10 {
        assert(dec_str(a).len() == 1);
        assert(dec_str(b).len() == dec_str(b / 10).len() + 1);
        assert(dec_str(b / 10).len() >= 1) by {
            lemma_dec_len(b / 10);
        }
    } else if b < 10 {
        assert(dec_str(b).len() == 1);
        assert(dec_str(a).len() == dec_str(a / 10).len() + 1);
        assert(dec_str(a / 10).len() >= 1) by {
            lemma_dec_len(a / 10);
        }
    } else {
        if a % 10 != b % 10 {
            assert(dec_str(a).last() == dec_digit_char(a % 10));
            assert(dec_str(b).last() == dec_digit_char(b % 10));
            assert(dec_digit_char(a % 10) != dec_digit_char(b % 10));
            if dec_str(a) == dec_str(b) {
                assert(false);
            }
        } else {
            assert(a / 10 != b / 10);
            lemma_dec_str_injective(a / 10, b / 10);
            if dec_str(a) == dec_str(b) {
                assert(dec_str(a).drop_last() =~= dec_str(a / 10));
                assert(dec_str(b).drop_last() =~= dec_str(b / 10));
                assert(false);
            }
        }
    }
}

/// A decimal representation holds at least one character.
proof fn lemma_dec_len(n: nat)
    ensures
        dec_str(n).len() >= 1,
    decreases n,
{
    if n >= 10 {
        lemma_dec_len(n / 10);
    }
}

/// Distinct part numbers have distinct signed decimal forms.
proof fn lemma_i32_dec_injective(a: int, b: int)
    requires
        a != b,
    ensures
        spec_i32_dec(a) != spec_i32_dec(b),
{
    lemma_dec_str_digits(if a < 0 {
        (-a) as nat
    } else {
        a as nat
    });
    lemma_dec_str_digits(if b < 0 {
        (-b) as nat
    } else {
        b as nat
    });
    if a < 0 && b < 0 {
        lemma_dec_str_injective((-a) as nat, (-b) as nat);
        if spec_i32_dec(a) == spec_i32_dec(b) {
            assert(spec_i32_dec(a).drop_first() =~= dec_str((-a) as nat));
            assert(spec_i32_dec(b).drop_first() =~= dec_str((-b) as nat));
            assert(false);
        }
    } else if a < 0 {
        assert(spec_i32_dec(a)[0] == '-');
        assert(is_digit_char(spec_i32_dec(b)[0])) by {
            lemma_dec_len(b as nat);
        }
        if spec_i32_dec(a) == spec_i32_dec(b) {
            assert(false);
        }
    } else if b < 0 {
        assert(spec_i32_dec(b)[0] == '-');
        assert(is_digit_char(spec_i32_dec(a)[0])) by {
            lemma_dec_len(a as nat);
        }
        if spec_i32_dec(a) == spec_i32_dec(b) {
            assert(false);
        }
    } else {
        lemma_dec_str_injective(a as nat, b as nat);
    }
}

/// Distinct parts live at distinct part paths.
pub proof fn lemma_part_path_injective(
    root: Seq<char>,
    u1: Seq<char>,
    n1: int,
    u2: Seq<char>,
    n2: int,
)
    requires
        u1.len() == 36,
        u2.len() == 36,
        !(u1 == u2 && n1 == n2),
    ensures
        spec_part_path(root, u1, n1) != spec_part_path(root, u2, n2),
{
    let p1 = spec_part_path(root, u1, n1);
    let p2 = spec_part_path(root, u2, n2);
    reveal_strlit("/.upload_id-");
    reveal_strlit(".part-");
    assert("/.upload_id-"@.len() == 12);
    assert(".part-"@.len() == 6);
    if p1 == p2 {
        assert(u1 =~= u2) by {
            assert forall|j: int| 0 <= j < 36 implies u1[j] == u2[j] by {
                assert(p1[root.len() as int + 12 + j] == u1[j]);
                assert(p2[root.len() as int + 12 + j] == u2[j]);
            }
        }
        assert(n1 != n2);
        lemma_i32_dec_injective(n1, n2);
        let off = root.len() as int + 12 + 36 + 6;
        assert(spec_i32_dec(n1) =~= spec_i32_dec(n2)) by {
            assert(p1.len() == off + spec_i32_dec(n1).len());
            assert(p2.len() == off + spec_i32_dec(n2).len());
            assert forall|j: int| 0 <= j < spec_i32_dec(n1).len() implies spec_i32_dec(n1)[j]
                == spec_i32_dec(n2)[j] by {
                assert(p1[off + j] == spec_i32_dec(n1)[j]);
                assert(p2[off + j] == spec_i32_dec(n2)[j]);
            }
        }
        assert(false);
    }
}

/// In a name sequence that ascends pairwise, any earlier name is strictly
/// below any later one.
proof fn lemma_names_sorted_global(s: Seq<Seq<char>>, i: int, j: int)
    requires
        forall|a: int| 0 <= a < s.len() - 1 ==> crate::strings::lex_lt(#[trigger] s[a], s[a + 1]),
        0 <= i < j < s.len(),
    ensures
        crate::strings::lex_lt(s[i], s[j]),
    decreases j - i,
{
    if i + 1 < j {
        lemma_names_sorted_global(s, i + 1, j);
        crate::strings::lemma_lex_trans(s[i], s[i + 1], s[j]);
    }
}

/// The literal path of an object is not a part path: a separator stands
/// after the bucket.
pub proof fn lemma_object_path_not_part(root: Seq<char>, bucket: Seq<char>, key: Seq<char>)
    requires
        bucket.len() > 0,
    ensures
        !is_part_path(root, literal_object_path(root, bucket, key)),
{
    let p = literal_object_path(root, bucket, key);
    let tail = p.skip(root.len() as int + 1);
    assert(tail[bucket.len() as int] == '/') by {
        assert(p[root.len() as int + 1 + bucket.len() as int] == '/');
    }
    lemma_contains_single(tail, '/');
    assert(has_char(tail, '/'));
}

/// A byte range of a read request, as the HTTP Range header carries it.
#[derive(Clone, Copy, PartialEq, Eq, Structural, Debug)]
pub enum Range {
    /// An inclusive range from `first`, optionally up to `last`.
    Int { first: u64, last: Option<u64> },
    /// The last `length` bytes.
    Suffix { length: u64 },
}

/// The half-open byte window a range selects from a body of `len` bytes,
/// or nothing when the range is not satisfiable.
pub open spec fn spec_range_bounds(r: Option<Range>, len: int) -> Option<(int, int)> {
    match r {
        None => Some((0, len)),
        Some(Range::Int { first, last }) => if first >= len {
            None
        } else {
            match last {
                Some(l) => {
                    let e = if l < len - 1 {
                        l as int
                    } else {
                        len - 1
                    };
                    if first > e {
                        None
                    } else {
                        Some((first as int, e + 1))
                    }
                },
                None => Some((first as int, len)),
            }
        },
        Some(Range::Suffix { length }) => if length == 0 {
            None
        } else {
            let l = if length < len {
                length as int
            } else {
                len
            };
            Some((len - l, len))
        },
    }
}

/// The Content-Range header of a ranged read.
pub open spec fn spec_content_range(start: int, end_inclusive: int, size: int) -> Seq<char> {
    "bytes "@ + dec_str(start as nat) + seq!['-'] + dec_str(end_inclusive as nat) + seq!['/']
        + dec_str(size as nat)
}

/// Formats a Content-Range header value.
pub fn fmt_content_range(start: u64, end_inclusive: u64, size: u64) -> (r: String)
    ensures
        r@ == spec_content_range(start as int, end_inclusive as int, size as int),
{
    let mut out: String = String::new();
    push_str(&mut out, "bytes ");
    let a = u64_to_dec(start);
    push_str(&mut out, a.as_str());
    push_str(&mut out, "-");
    let b = u64_to_dec(end_inclusive);
    push_str(&mut out, b.as_str());
    push_str(&mut out, "/");
    let c = u64_to_dec(size);
    push_str(&mut out, c.as_str());
    proof {
        reveal_strlit("-");
        reveal_strlit("/");
        assert(out@ =~= spec_content_range(start as int, end_inclusive as int, size as int));
    }
    out
}

/// The body of the object stored under `(bucket, key)`: the content of the
/// file its row points at, where both the row and the file exist.
pub open spec fn spec_object_body(
    root: Seq<char>,
    objects: Seq<S3ItemDetailV>,
    disk: Disk,
    bucket: Seq<char>,
    key: Seq<char>,
) -> Option<Seq<u8>> {
    match lookup_obj(objects, bucket, key) {
        Some(row) => match crate::path::spec_resolve(root, row.data_location) {
            Some(p) => if disk.files().contains_key(p) {
                Some(disk.files()[p])
            } else {
                None
            },
            None => None,
        },
        None => None,
    }
}

/// A bucket lookup request.
#[derive(Debug)]
pub struct GetBucketLocationInput {
    pub bucket: String,
}

/// A bucket lookup response; the region is implicit.
#[derive(Debug)]
pub struct GetBucketLocationOutput {
    pub location_constraint: Option<String>,
}

/// A bucket presence request.
#[derive(Debug)]
pub struct HeadBucketInput {
    pub bucket: String,
}

/// A bucket presence response.
#[derive(Debug)]
pub struct HeadBucketOutput {
    pub exists: bool,
}

/// An object metadata request.
#[derive(Debug)]
pub struct HeadObjectInput {
    pub bucket: String,
    pub key: String,
}

/// An object metadata response.
#[derive(Debug)]
pub struct HeadObjectOutput {
    pub content_length: usize,
    pub last_modified: i64,
    pub metadata: Option<StrMap>,
    pub e_tag: Option<String>,
}

/// An object read request.
#[derive(Debug)]
pub struct GetObjectInput {
    pub bucket: String,
    pub key: String,
    pub range: Option<Range>,
}

/// An object read response.
#[derive(Debug)]
pub struct GetObjectOutput {
    pub body: Vec<u8>,
    pub content_length: usize,
    pub content_range: Option<String>,
    pub last_modified: i64,
    pub metadata: Option<StrMap>,
    pub e_tag: Option<String>,
    pub checksum: Checksum,
}

impl StorageBackend {
    /// Reports the location of a bucket: succeeds exactly when the bucket
    /// path resolves and something stands there.
    pub fn get_bucket_location(&self, input: GetBucketLocationInput) -> (r: Result<
        GetBucketLocationOutput,
        S3ErrorCode,
    >)
        requires
            self.inv(),
        ensures
            r is Ok <==> crate::path::spec_resolve(self.root@, input.bucket@) is Some
                && self.spec_disk().spec_path_exists(
                crate::path::spec_resolve(self.root@, input.bucket@).unwrap(),
            ),
            crate::path::spec_resolve(self.root@, input.bucket@) is None ==> r == Err::<
                GetBucketLocationOutput,
                S3ErrorCode,
            >(S3ErrorCode::InvalidRequest),
            r is Err && crate::path::spec_resolve(self.root@, input.bucket@) is Some ==> r
                == Err::<GetBucketLocationOutput, S3ErrorCode>(S3ErrorCode::NoSuchBucket),
    {
        let path = match self.get_bucket_path(input.bucket.as_str()) {
            Ok(p) => p,
            Err(_) => {
                return Err(S3ErrorCode::InvalidRequest);
            },
        };
        if !self.path_exists(path.as_str()) {
            return Err(S3ErrorCode::NoSuchBucket);
        }
        Ok(GetBucketLocationOutput { location_constraint: None })
    }

    /// Tests a bucket for existence, with the same conditions as the
    /// location request.
    pub fn head_bucket(&self, input: HeadBucketInput) -> (r: Result<HeadBucketOutput, S3ErrorCode>)
        requires
            self.inv(),
        ensures
            r is Ok <==> crate::path::spec_resolve(self.root@, input.bucket@) is Some
                && self.spec_disk().spec_path_exists(
                crate::path::spec_resolve(self.root@, input.bucket@).unwrap(),
            ),
            crate::path::spec_resolve(self.root@, input.bucket@) is None ==> r == Err::<
                HeadBucketOutput,
                S3ErrorCode,
            >(S3ErrorCode::InvalidRequest),
            r is Err && crate::path::spec_resolve(self.root@, input.bucket@) is Some ==> r
                == Err::<HeadBucketOutput, S3ErrorCode>(S3ErrorCode::NoSuchBucket),
    {
        let path = match self.get_bucket_path(input.bucket.as_str()) {
            Ok(p) => p,
            Err(_) => {
                return Err(S3ErrorCode::InvalidRequest);
            },
        };
        if !self.path_exists(path.as_str()) {
            return Err(S3ErrorCode::NoSuchBucket);
        }
        Ok(HeadBucketOutput { exists: true })
    }

    /// Reads the metadata of an object: `NoSuchKey` when no row exists,
    /// `NoSuchBucket` when the row's file is gone.
    pub fn head_object(&self, input: HeadObjectInput) -> (r: Result<HeadObjectOutput, S3ErrorCode>)
        requires
            self.inv(),
        ensures
            match lookup_obj(self.datastore.objects_view(), input.bucket@, input.key@) {
                Some(row) => match spec_object_body(
                    self.root@,
                    self.datastore.objects_view(),
                    self.spec_disk(),
                    input.bucket@,
                    input.key@,
                ) {
                    Some(content) => {
                        &&& r is Ok
                        &&& r->Ok_0.content_length == content.len()
                        &&& r->Ok_0.last_modified == row.last_modified
                        &&& r->Ok_0.e_tag matches Some(t) && t@ == row.e_tag
                        &&& (match r->Ok_0.metadata {
                            Some(m) => spec_parse(row.metadata) matches Some(es) && m.spec_map()
                                == entries_map(es),
                            None => spec_parse(row.metadata) is None,
                        })
                    },
                    None => r == Err::<HeadObjectOutput, S3ErrorCode>(S3ErrorCode::NoSuchBucket),
                },
                None => r == Err::<HeadObjectOutput, S3ErrorCode>(S3ErrorCode::NoSuchKey),
            },
    {
        let detail = self.datastore.get_s3_item_detail(input.bucket.as_str(), input.key.as_str());
        let d = match detail {
            Some(d) => d,
            None => {
                return Err(S3ErrorCode::NoSuchKey);
            },
        };
        proof {
            crate::catalog::lemma_lookup_obj_contains(
                self.datastore.objects_view(),
                input.bucket@,
                input.key@,
            );
            let objs = self.datastore.objects_view();
            let w = choose|w: int| 0 <= w < objs.len() && objs[w] == d@;
            assert(crate::backend::obj_row_inv(self.root@, self.spec_disk(), objs[w]));
        }
        let object_path = match crate::path::resolve_abs_path(
            self.root.as_str(),
            d.data_location.as_str(),
        ) {
            Ok(p) => p,
            Err(_) => {
                proof {
                    assert(false);
                }
                return Err(S3ErrorCode::InternalError);
            },
        };
        let content = match self.read_file(object_path.as_str()) {
            Some(c) => c,
            None => {
                return Err(S3ErrorCode::NoSuchBucket);
            },
        };
        let metadata = try_metadata_from_string(d.metadata.as_str());
        Ok(
            HeadObjectOutput {
                content_length: content.len(),
                last_modified: d.last_modified,
                metadata,
                e_tag: Some(d.e_tag),
            },
        )
    }
}

/// An object write request.
#[derive(Debug)]
pub struct PutObjectInput {
    pub body: Option<Vec<u8>>,
    pub bucket: String,
    pub key: String,
    pub metadata: Option<StrMap>,
    pub content_length: Option<i64>,
    pub checksum_crc32: Option<String>,
    pub checksum_crc32c: Option<String>,
    pub checksum_sha1: Option<String>,
    pub checksum_sha256: Option<String>,
}

/// An object write response: the new ETag and the computed checksums.
#[derive(Debug)]
pub struct PutObjectOutput {
    pub e_tag: Option<String>,
    pub checksum: Checksum,
}

/// Whether a key names a directory object.
pub open spec fn dir_key(k: Seq<char>) -> bool {
    crate::strings::has_suffix(k, "/"@)
}

/// Whether each client-supplied checksum equals the one computed over the
/// body.
pub open spec fn checksums_match(bd: Seq<u8>, input: &PutObjectInput) -> bool {
    &&& (input.checksum_crc32 matches Some(x) ==> crate::checksum::crc32_b64_of(bd) == x@)
    &&& (input.checksum_crc32c matches Some(x) ==> crate::checksum::crc32c_b64_of(bd) == x@)
    &&& (input.checksum_sha1 matches Some(x) ==> crate::checksum::sha1_b64_of(bd) == x@)
    &&& (input.checksum_sha256 matches Some(x) ==> crate::checksum::sha256_b64_of(bd) == x@)
}

/// The checksum set computed over a body for the channels a request enabled.
pub open spec fn computed_checksums(bd: Seq<u8>, input: &PutObjectInput) -> crate::checksum::ChecksumV {
    crate::checksum::ChecksumV {
        crc32: match input.checksum_crc32 {
            Some(_) => Some(crate::checksum::crc32_b64_of(bd)),
            None => None,
        },
        crc32c: match input.checksum_crc32c {
            Some(_) => Some(crate::checksum::crc32c_b64_of(bd)),
            None => None,
        },
        sha1: match input.checksum_sha1 {
            Some(_) => Some(crate::checksum::sha1_b64_of(bd)),
            None => None,
        },
        sha256: match input.checksum_sha256 {
            Some(_) => Some(crate::checksum::sha256_b64_of(bd)),
            None => None,
        },
    }
}

/// The mapping a serialized internal info string parses to; empty when it is
/// not a flat JSON object.
pub open spec fn info_map_of(s: Seq<char>) -> Map<Seq<char>, Seq<char>> {
    match spec_parse(s) {
        Some(es) => entries_map(es),
        None => Map::<Seq<char>, Seq<char>>::empty(),
    }
}

impl StorageBackend {
    /// Stores an object: validates the key, streams the body through the
    /// checksum engine into an atomic write at the object's path, validates
    /// the client-supplied checksums, and records the catalog row. A key
    /// ending in a separator creates a directory instead.
    #[verifier::rlimit(100)]
    pub fn put_object(&mut self, input: PutObjectInput, now: i64) -> (r: Result<
        PutObjectOutput,
        S3ErrorCode,
    >)
        requires
            old(self).inv(),
        ensures
            final(self).inv(),
            final(self).root@ == old(self).root@,
            final(self).datastore.uploads_view() == old(self).datastore.uploads_view(),
            final(self).datastore.parts_view() == old(self).datastore.parts_view(),
            input.body is None ==> r == Err::<PutObjectOutput, S3ErrorCode>(
                S3ErrorCode::IncompleteBody,
            ) && final(self).datastore == old(self).datastore
                && final(self).spec_disk() == old(self).spec_disk(),
            match input.body {
                None => true,
                Some(bd) => dir_key(input.key@) ==> {
                let resolved = crate::path::spec_resolve(
                    old(self).root@,
                    input.bucket@ + seq!['/'] + input.key@,
                );
                &&& final(self).datastore == old(self).datastore
                &&& final(self).spec_disk().files() == old(self).spec_disk().files()
                &&& ((match input.content_length {
                    Some(l) => l > 0,
                    None => false,
                }) ==> r == Err::<PutObjectOutput, S3ErrorCode>(S3ErrorCode::UnexpectedContent)
                    && final(self).spec_disk() == old(self).spec_disk())
                &&& (!(match input.content_length {
                    Some(l) => l > 0,
                    None => false,
                }) && resolved is None ==> r == Err::<PutObjectOutput, S3ErrorCode>(
                    S3ErrorCode::InvalidRequest,
                ) && final(self).spec_disk() == old(self).spec_disk())
                &&& (!(match input.content_length {
                    Some(l) => l > 0,
                    None => false,
                }) && resolved is Some ==> r is Ok && r->Ok_0.e_tag is None
                    && final(self).spec_disk().dirs() == old(self).spec_disk().dirs().push(
                    resolved.unwrap(),
                ))
                },
            },
            input.body is Some && !dir_key(input.key@) && !crate::backend::storable(
                old(self).root@,
                input.bucket@,
                input.key@,
            ) ==> r == Err::<PutObjectOutput, S3ErrorCode>(S3ErrorCode::InvalidRequest)
                && final(self).datastore == old(self).datastore
                && final(self).spec_disk() == old(self).spec_disk(),
            input.body matches Some(bd) && !dir_key(input.key@) && crate::backend::storable(
                old(self).root@,
                input.bucket@,
                input.key@,
            ) && !checksums_match(bd@, &input) && !(old(self).spec_disk().spec_dir_exists(
                literal_object_path(old(self).root@, input.bucket@, input.key@),
            ) && old(self).spec_disk().files().contains_key(
                literal_object_path(old(self).root@, input.bucket@, input.key@),
            )) ==> r == Err::<PutObjectOutput, S3ErrorCode>(S3ErrorCode::BadDigest)
                && final(self).datastore == old(self).datastore
                && final(self).spec_disk() == old(self).spec_disk(),
            match input.body {
                None => true,
                Some(bd) => !dir_key(input.key@) && crate::backend::storable(
                    old(self).root@,
                    input.bucket@,
                    input.key@,
                ) && checksums_match(bd@, &input) && r is Ok ==> {
                let lit = literal_object_path(old(self).root@, input.bucket@, input.key@);
                &&& (r->Ok_0.e_tag matches Some(t) && t@ == spec_etag(bd@))
                &&& r->Ok_0.checksum@ == computed_checksums(bd@, &input)
                &&& final(self).spec_disk().dirs() == old(self).spec_disk().dirs()
                &&& (!old(self).spec_disk().spec_dir_exists(lit)
                    ==> final(self).spec_disk().files() == old(self).spec_disk().files().insert(
                    lit,
                    bd@,
                ))
                &&& (old(self).spec_disk().spec_dir_exists(lit)
                    ==> final(self).spec_disk().files() == old(self).spec_disk().files())
                &&& (match lookup_obj(
                    final(self).datastore.objects_view(),
                    input.bucket@,
                    input.key@,
                ) {
                    Some(row) => {
                        &&& row.e_tag == spec_etag(bd@)
                        &&& row.last_modified == now as int
                        &&& row.data_location == input.bucket@ + seq!['/'] + input.key@
                        &&& row.metadata == crate::json::json_object(
                            match input.metadata {
                                Some(m) => m@,
                                None => Seq::<(Seq<char>, Seq<char>)>::empty(),
                            },
                        )
                        &&& info_map_of(row.internal_info) == crate::checksum::record_checksums(
                            Map::<Seq<char>, Seq<char>>::empty(),
                            computed_checksums(bd@, &input),
                        )
                    },
                    None => false,
                })
                &&& (forall|b2: Seq<char>, k2: Seq<char>|
                    !(b2 == input.bucket@ && k2 == input.key@) ==> #[trigger] lookup_obj(
                        final(self).datastore.objects_view(),
                        b2,
                        k2,
                    ) == lookup_obj(old(self).datastore.objects_view(), b2, k2))
                &&& (!old(self).spec_disk().spec_dir_exists(lit) ==> spec_object_body(
                    old(self).root@,
                    final(self).datastore.objects_view(),
                    final(self).spec_disk(),
                    input.bucket@,
                    input.key@,
                ) == Some(bd@))
                },
            },
            match input.body {
                None => true,
                Some(bd) => !dir_key(input.key@) && crate::backend::storable(
                    old(self).root@,
                    input.bucket@,
                    input.key@,
                ) && checksums_match(bd@, &input) ==> (r is Ok || r == Err::<
                    PutObjectOutput,
                    S3ErrorCode,
                >(S3ErrorCode::InternalError)),
            },
            match input.body {
                None => true,
                Some(bd) => !dir_key(input.key@) && crate::backend::storable(
                    old(self).root@,
                    input.bucket@,
                    input.key@,
                ) && checksums_match(bd@, &input) && !(old(self).spec_disk().spec_dir_exists(
                    literal_object_path(old(self).root@, input.bucket@, input.key@),
                ) && old(self).spec_disk().files().contains_key(
                    literal_object_path(old(self).root@, input.bucket@, input.key@),
                )) ==> r is Ok,
            },
    {
        let body = match input.body {
            Some(ref b) => b,
            None => {
                return Err(S3ErrorCode::IncompleteBody);
            },
        };
        let hasher = crate::checksum::init_checksum_hasher(
            input.checksum_crc32.as_ref(),
            input.checksum_crc32c.as_ref(),
            input.checksum_sha1.as_ref(),
            input.checksum_sha256.as_ref(),
        );
        if crate::strings::str_ends_with(input.key.as_str(), "/") {
            match self.handle_directory_creation(
                input.content_length,
                input.bucket.as_str(),
                input.key.as_str(),
            ) {
                Ok(()) => {
                    return Ok(PutObjectOutput { e_tag: None, checksum: Checksum::none() });
                },
                Err(code) => {
                    return Err(code);
                },
            }
        }
        if !self.check_storable(input.bucket.as_str(), input.key.as_str()) {
            return Err(S3ErrorCode::InvalidRequest);
        }
        let mut lit: String = self.root.clone();
        push_str(&mut lit, "/");
        push_str(&mut lit, input.bucket.as_str());
        push_str(&mut lit, "/");
        push_str(&mut lit, input.key.as_str());
        proof {
            reveal_strlit("/");
            assert(lit@ =~= literal_object_path(self.root@, input.bucket@, input.key@));
        }
        let dir_at_dest = self.dir_exists(lit.as_str());
        if dir_at_dest && self.file_exists(lit.as_str()) {
            return Err(S3ErrorCode::InternalError);
        }
        let mut file_writer = self.prepare_file_write(lit.clone());
        file_writer.write_all(body.as_slice());
        let md5_sum = crate::hash::md5_hex(body.as_slice());
        let checksum = crate::checksum::compute_checksums(body.as_slice(), &hasher);
        match crate::checksum::validate_checksums(
            &checksum,
            input.checksum_crc32.as_ref(),
            input.checksum_crc32c.as_ref(),
            input.checksum_sha1.as_ref(),
            input.checksum_sha256.as_ref(),
        ) {
            Ok(()) => {},
            Err(code) => {
                return Err(code);
            },
        }
        proof {
            assert(checksums_match(body@, &input));
            assert(checksum@ == computed_checksums(body@, &input));
        }
        let ghost mid = *self;
        self.commit_file_write(file_writer);
        let mut info = StrMap::new();
        crate::checksum::modify_internal_info(&mut info, &checksum);
        let ghost infoview = info@;
        let save_result = self.save_s3_item_detail(
            input.bucket.as_str(),
            input.key.as_str(),
            md5_sum.as_str(),
            input.metadata.as_ref(),
            &info,
            now,
        );
        match save_result {
            Ok(()) => {},
            Err(_) => {
                proof {
                    assert(false);
                }
                return Err(S3ErrorCode::InternalError);
            },
        }
        let ghost row = crate::backend::saved_row(
            input.bucket@,
            input.key@,
            md5_sum@,
            match input.metadata {
                Some(ref m) => Some(m@),
                None => None,
            },
            infoview,
            now as int,
        );
        proof {
            let oldobjs = old(self).datastore.objects_view();
            crate::catalog::lemma_upsert_obj(oldobjs, row);
            crate::json::lemma_metadata_round_trip(infoview);
            let litv = literal_object_path(old(self).root@, input.bucket@, input.key@);
            lemma_object_path_not_part(old(self).root@, input.bucket@, input.key@);
            assert forall|i: int| 0 <= i < self.datastore.objects_view().len() implies crate::backend::obj_row_inv(
                self.root@,
                self.spec_disk(),
                #[trigger] self.datastore.objects_view()[i],
            ) by {
                let v = self.datastore.objects_view()[i];
                if v == row {
                    assert(crate::backend::obj_row_inv(self.root@, self.spec_disk(), row));
                } else {
                    assert(oldobjs.contains(v) && !crate::catalog::obj_same_key(v, row));
                    let w = choose|w: int| 0 <= w < oldobjs.len() && oldobjs[w] == v;
                    assert(crate::backend::obj_row_inv(old(self).root@, old(self).spec_disk(), v));
                    let vp = literal_object_path(self.root@, v.bucket, v.key);
                    if vp == litv {
                        crate::backend::lemma_literal_path_injective(
                            self.root@,
                            v.bucket,
                            v.key,
                            input.bucket@,
                            input.key@,
                        );
                        assert(false);
                    }
                    assert(self.spec_disk().files().contains_key(vp) == old(
                        self,
                    ).spec_disk().files().contains_key(vp));
                    assert(self.spec_disk().files().contains_key(vp) ==> self.spec_disk().files()[vp]
                        == old(self).spec_disk().files()[vp]);
                }
            }
            assert forall|i: int| 0 <= i < self.datastore.parts_view().len() implies crate::backend::part_row_inv(
                self.root@,
                self.spec_disk(),
                #[trigger] self.datastore.parts_view()[i],
            ) by {
                let v = self.datastore.parts_view()[i];
                assert(crate::backend::part_row_inv(old(self).root@, old(self).spec_disk(), v));
            }
            assert forall|p: Seq<char>|
                #[trigger] self.spec_disk().files().contains_key(p) && is_part_path(self.root@, p)
                    implies exists|i: int|
                    0 <= i < self.datastore.parts_view().len() && (
                    #[trigger] self.datastore.parts_view()[i]).data_location == p by {
                assert(p != litv);
                assert(old(self).spec_disk().files().contains_key(p));
            }
        }
        Ok(PutObjectOutput { e_tag: Some(md5_sum), checksum })
    }
}


/// Computes the byte window a range selects from a body.
fn check_range(r: Option<Range>, len: usize) -> (res: Result<(usize, usize), S3ErrorCode>)
    ensures
        match spec_range_bounds(r, len as int) {
            Some(p) => res is Ok && res->Ok_0.0 == p.0 && res->Ok_0.1 == p.1,
            None => res == Err::<(usize, usize), S3ErrorCode>(S3ErrorCode::RangeNotSatisfiable),
        },
{
    match r {
        None => Ok((0, len)),
        Some(Range::Int { first, last }) => {
            if first >= len as u64 {
                return Err(S3ErrorCode::RangeNotSatisfiable);
            }
            match last {
                Some(l) => {
                    let e: usize = if l < (len as u64) - 1 {
                        l as usize
                    } else {
                        len - 1
                    };
                    if first > e as u64 {
                        return Err(S3ErrorCode::RangeNotSatisfiable);
                    }
                    Ok((first as usize, e + 1))
                },
                None => Ok((first as usize, len)),
            }
        },
        Some(Range::Suffix { length }) => {
            if length == 0 {
                return Err(S3ErrorCode::RangeNotSatisfiable);
            }
            let l: usize = if length < len as u64 {
                length as usize
            } else {
                len
            };
            Ok((len - l, len))
        },
    }
}

/// Copies one byte window of a body.
fn copy_range(v: &Vec<u8>, start: usize, end: usize) -> (r: Vec<u8>)
    requires
        start <= end <= v@.len(),
    ensures
        r@ == v@.subrange(start as int, end as int),
{
    let mut out: Vec<u8> = Vec::new();
    let mut i: usize = start;
    while i < end
        invariant
            start <= i <= end <= v@.len(),
            out@ == v@.subrange(start as int, i as int),
        decreases end - i,
    {
        out.push(v[i]);
        proof {
            assert(out@ =~= v@.subrange(start as int, i + 1));
        }
        i += 1;
    }
    out
}

impl StorageBackend {
    /// Reads an object, optionally one byte range of it: the stored body (or
    /// its selected window), the parsed user metadata, the recorded checksum
    /// set, and the ETag. The returned body's MD5 always matches the row's
    /// stored ETag on a full read.
    pub fn get_object(&self, input: GetObjectInput) -> (r: Result<GetObjectOutput, S3ErrorCode>)
        requires
            self.inv(),
        ensures
            match lookup_obj(self.datastore.objects_view(), input.bucket@, input.key@) {
                Some(row) => match spec_object_body(
                    self.root@,
                    self.datastore.objects_view(),
                    self.spec_disk(),
                    input.bucket@,
                    input.key@,
                ) {
                    Some(content) => match spec_range_bounds(input.range, content.len() as int) {
                        Some(w) => {
                            &&& r is Ok
                            &&& r->Ok_0.body@ == content.subrange(w.0, w.1)
                            &&& r->Ok_0.content_length == w.1 - w.0
                            &&& (match input.range {
                                None => r->Ok_0.content_range is None,
                                Some(_) => r->Ok_0.content_range matches Some(cr) && cr@
                                    == spec_content_range(
                                    w.0,
                                    if w.1 == 0 {
                                        0
                                    } else {
                                        w.1 - 1
                                    },
                                    content.len() as int,
                                ),
                            })
                            &&& r->Ok_0.last_modified == row.last_modified
                            &&& (r->Ok_0.e_tag matches Some(t) && t@ == row.e_tag)
                            &&& (match r->Ok_0.metadata {
                                Some(m) => spec_parse(row.metadata) matches Some(es)
                                    && m.spec_map() == entries_map(es),
                                None => spec_parse(row.metadata) is None,
                            })
                            &&& r->Ok_0.checksum@.crc32 == map_get_opt(
                                info_map_of(row.internal_info),
                                key_crc32(),
                            )
                            &&& r->Ok_0.checksum@.crc32c == map_get_opt(
                                info_map_of(row.internal_info),
                                key_crc32c(),
                            )
                            &&& r->Ok_0.checksum@.sha1 == map_get_opt(
                                info_map_of(row.internal_info),
                                key_sha1(),
                            )
                            &&& r->Ok_0.checksum@.sha256 == map_get_opt(
                                info_map_of(row.internal_info),
                                key_sha256(),
                            )
                            &&& (input.range is None ==> spec_etag(r->Ok_0.body@) == row.e_tag)
                        },
                        None => r == Err::<GetObjectOutput, S3ErrorCode>(
                            S3ErrorCode::RangeNotSatisfiable,
                        ),
                    },
                    None => r == Err::<GetObjectOutput, S3ErrorCode>(S3ErrorCode::NoSuchKey),
                },
                None => r == Err::<GetObjectOutput, S3ErrorCode>(S3ErrorCode::NoSuchKey),
            },
    {
        let detail = self.datastore.get_s3_item_detail(input.bucket.as_str(), input.key.as_str());
        let d = match detail {
            Some(d) => d,
            None => {
                return Err(S3ErrorCode::NoSuchKey);
            },
        };
        proof {
            crate::catalog::lemma_lookup_obj_contains(
                self.datastore.objects_view(),
                input.bucket@,
                input.key@,
            );
            let objs = self.datastore.objects_view();
            let w = choose|w: int| 0 <= w < objs.len() && objs[w] == d@;
            assert(crate::backend::obj_row_inv(self.root@, self.spec_disk(), objs[w]));
        }
        let object_path = match crate::path::resolve_abs_path(
            self.root.as_str(),
            d.data_location.as_str(),
        ) {
            Ok(p) => p,
            Err(_) => {
                proof {
                    assert(false);
                }
                return Err(S3ErrorCode::InternalError);
            },
        };
        let content = match self.read_file(object_path.as_str()) {
            Some(c) => c,
            None => {
                return Err(S3ErrorCode::NoSuchKey);
            },
        };
        let file_len: usize = content.len();
        let (start, end) = match check_range(input.range, file_len) {
            Ok(w) => w,
            Err(code) => {
                return Err(code);
            },
        };
        proof {
            crate::catalog::lemma_lookup_obj_contains(
                self.datastore.objects_view(),
                input.bucket@,
                input.key@,
            );
            let objs = self.datastore.objects_view();
            let w = choose|w: int| 0 <= w < objs.len() && objs[w] == d@;
            assert(crate::backend::obj_row_inv(self.root@, self.spec_disk(), objs[w]));
        }
        let body = copy_range(content, start, end);
        let endinc: u64 = if end == 0 {
            0
        } else {
            (end - 1) as u64
        };
        let content_range: Option<String> = match input.range {
            None => None,
            Some(_) => Some(fmt_content_range((start as u64), endinc, file_len as u64)),
        };
        let metadata = try_metadata_from_string(d.metadata.as_str());
        let info = try_metadata_from_string(d.internal_info.as_str());
        let checksum = match info {
            Some(ref m) => crate::checksum::from_internal_info(m),
            None => Checksum::none(),
        };
        proof {
            if input.range is None {
                assert(body@ =~= content@);
            }
        }
        Ok(
            GetObjectOutput {
                body,
                content_length: end - start,
                content_range,
                last_modified: d.last_modified,
                metadata,
                e_tag: Some(d.e_tag),
                checksum,
            },
        )
    }
}


/// A request to start a multipart upload.
#[derive(Debug)]
pub struct CreateMultipartUploadInput {
    pub bucket: String,
    pub key: String,
    pub metadata: Option<StrMap>,
}

/// The response to a started multipart upload.
#[derive(Debug)]
pub struct CreateMultipartUploadOutput {
    pub bucket: String,
    pub key: String,
    pub upload_id: String,
}

/// A request to store one part of an upload.
#[derive(Debug)]
pub struct UploadPartInput {
    pub body: Option<Vec<u8>>,
    pub upload_id: String,
    pub part_number: i32,
}

/// The response to a stored part.
#[derive(Debug)]
pub struct UploadPartOutput {
    pub e_tag: Option<String>,
}

impl StorageBackend {
    /// Starts a multipart upload: the bucket must exist and the request must
    /// carry credentials; a fresh upload ID is bound to the caller's access
    /// key.
    pub fn create_multipart_upload(
        &mut self,
        input: CreateMultipartUploadInput,
        credentials: Option<&crate::types::Credentials>,
        now: i64,
    ) -> (r: Result<CreateMultipartUploadOutput, S3ErrorCode>)
        requires
            old(self).inv(),
        ensures
            final(self).inv(),
            final(self).root@ == old(self).root@,
            final(self).spec_disk() == old(self).spec_disk(),
            final(self).datastore.objects_view() == old(self).datastore.objects_view(),
            final(self).datastore.parts_view() == old(self).datastore.parts_view(),
            r is Err ==> final(self).datastore == old(self).datastore,
            crate::path::spec_resolve(old(self).root@, input.bucket@) is None ==> r == Err::<
                CreateMultipartUploadOutput,
                S3ErrorCode,
            >(S3ErrorCode::InvalidRequest),
            crate::path::spec_resolve(old(self).root@, input.bucket@) matches Some(bp) && !old(
                self,
            ).spec_disk().spec_path_exists(bp) ==> r == Err::<
                CreateMultipartUploadOutput,
                S3ErrorCode,
            >(S3ErrorCode::NoSuchBucket),
            crate::path::spec_resolve(old(self).root@, input.bucket@) matches Some(bp) && old(
                self,
            ).spec_disk().spec_path_exists(bp) && credentials is None ==> r == Err::<
                CreateMultipartUploadOutput,
                S3ErrorCode,
            >(S3ErrorCode::AccessDenied),
            r is Ok <==> crate::path::spec_resolve(old(self).root@, input.bucket@) is Some && old(
                self,
            ).spec_disk().spec_path_exists(
                crate::path::spec_resolve(old(self).root@, input.bucket@).unwrap(),
            ) && credentials is Some,
            r is Ok ==> {
                &&& r->Ok_0.bucket@ == input.bucket@
                &&& r->Ok_0.key@ == input.key@
                &&& r->Ok_0.upload_id@.len() == 36
                &&& lookup_upload(final(self).datastore.uploads_view(), r->Ok_0.upload_id@)
                    == Some(
                    crate::types::MultipartUploadV {
                        upload_id: r->Ok_0.upload_id@,
                        bucket: input.bucket@,
                        key: input.key@,
                        metadata: crate::json::json_object(
                            match input.metadata {
                                Some(m) => m@,
                                None => Seq::<(Seq<char>, Seq<char>)>::empty(),
                            },
                        ),
                        last_modified: now as int,
                        access_key: crate::backend::spec_access_of(credentials),
                    },
                )
                &&& (forall|u2: Seq<char>|
                    u2 != r->Ok_0.upload_id@ ==> #[trigger] lookup_upload(
                        final(self).datastore.uploads_view(),
                        u2,
                    ) == lookup_upload(old(self).datastore.uploads_view(), u2))
            },
    {
        let bucket_path = match self.get_bucket_path(input.bucket.as_str()) {
            Ok(p) => p,
            Err(_) => {
                return Err(S3ErrorCode::InvalidRequest);
            },
        };
        if !self.path_exists(bucket_path.as_str()) {
            return Err(S3ErrorCode::NoSuchBucket);
        }
        let ak: String = match credentials {
            Some(c) => c.access_key.clone(),
            None => {
                return Err(S3ErrorCode::AccessDenied);
            },
        };
        let upload_id = crate::backend::new_upload_id();
        let metadata_str = crate::json::metadata_to_string(input.metadata.as_ref());
        self.save_multipart_upload(
            upload_id.as_str(),
            input.bucket.as_str(),
            input.key.as_str(),
            metadata_str.as_str(),
            ak.as_str(),
            now,
        );
        proof {
            assert forall|i: int|
                0 <= i < self.datastore.uploads_view().len() implies crate::backend::upload_row_inv(
                self.root@,
                #[trigger] self.datastore.uploads_view()[i],
            ) by {
                let v = self.datastore.uploads_view()[i];
                if old(self).datastore.uploads_view().contains(v) {
                    let w = choose|w: int|
                        0 <= w < old(self).datastore.uploads_view().len() && old(
                            self,
                        ).datastore.uploads_view()[w] == v;
                }
            }
        }
        Ok(
            CreateMultipartUploadOutput {
                bucket: input.bucket,
                key: input.key,
                upload_id,
            },
        )
    }

    /// Stores one part of an upload: the upload must exist and be owned by
    /// the request's access key; the part body lands atomically at the
    /// conventional part path and the part row records its MD5.
    #[verifier::rlimit(100)]
    pub fn upload_part(
        &mut self,
        input: UploadPartInput,
        credentials: Option<&crate::types::Credentials>,
        now: i64,
    ) -> (r: Result<UploadPartOutput, S3ErrorCode>)
        requires
            old(self).inv(),
        ensures
            final(self).inv(),
            final(self).root@ == old(self).root@,
            final(self).datastore.objects_view() == old(self).datastore.objects_view(),
            final(self).datastore.uploads_view() == old(self).datastore.uploads_view(),
            r is Err ==> final(self).datastore == old(self).datastore && final(self).spec_disk()
                == old(self).spec_disk(),
            input.body is None ==> r == Err::<UploadPartOutput, S3ErrorCode>(
                S3ErrorCode::IncompleteBody,
            ),
            input.body is Some && !crate::backend::uuid_parse_ok(input.upload_id@) ==> r == Err::<
                UploadPartOutput,
                S3ErrorCode,
            >(S3ErrorCode::InvalidRequest),
            input.body is Some && crate::backend::uuid_parse_ok(input.upload_id@)
                && !crate::backend::spec_access_granted(
                old(self).datastore.uploads_view(),
                credentials,
                crate::backend::uuid_normal_of(input.upload_id@),
            ) ==> r == Err::<UploadPartOutput, S3ErrorCode>(S3ErrorCode::AccessDenied),
            ({
                let u = crate::backend::uuid_normal_of(input.upload_id@);
                let pp = spec_part_path(old(self).root@, u, input.part_number as int);
                let settled = input.body is Some && crate::backend::uuid_parse_ok(input.upload_id@)
                    && crate::backend::spec_access_granted(
                    old(self).datastore.uploads_view(),
                    credentials,
                    u,
                );
                &&& (r is Ok <==> settled && !old(self).spec_disk().spec_dir_exists(pp))
                &&& (settled && old(self).spec_disk().spec_dir_exists(pp) ==> r == Err::<
                    UploadPartOutput,
                    S3ErrorCode,
                >(S3ErrorCode::InternalError))
            }),
            match input.body {
                None => true,
                Some(bd) => crate::backend::uuid_parse_ok(input.upload_id@)
                    && crate::backend::spec_access_granted(
                    old(self).datastore.uploads_view(),
                    credentials,
                    crate::backend::uuid_normal_of(input.upload_id@),
                ) && r is Ok ==> {
                    let u = crate::backend::uuid_normal_of(input.upload_id@);
                    let pp = spec_part_path(old(self).root@, u, input.part_number as int);
                    &&& (r->Ok_0.e_tag matches Some(t) && t@ == spec_etag(bd@))
                    &&& final(self).spec_disk().files() == old(self).spec_disk().files().insert(
                        pp,
                        bd@,
                    )
                    &&& final(self).spec_disk().dirs() == old(self).spec_disk().dirs()
                    &&& final(self).datastore.parts_view() == crate::catalog::upsert_part(
                        old(self).datastore.parts_view(),
                        crate::types::MultipartUploadPartV {
                            upload_id: u,
                            part_number: input.part_number as int,
                            last_modified: now as int,
                            md5: spec_etag(bd@),
                            data_location: pp,
                        },
                    )
                },
            },
    {
        let body = match input.body {
            Some(ref b) => b,
            None => {
                return Err(S3ErrorCode::IncompleteBody);
            },
        };
        let upload_id = match crate::backend::normalize_uuid(input.upload_id.as_str()) {
            Some(u) => u,
            None => {
                return Err(S3ErrorCode::InvalidRequest);
            },
        };
        let granted = match self.verify_access_key_by_upload_id(credentials, upload_id.as_str()) {
            Ok(g) => g,
            Err(_) => false,
        };
        if !granted {
            return Err(S3ErrorCode::AccessDenied);
        }
        let file_path = self.resolve_upload_part_path(upload_id.as_str(), input.part_number);
        if self.dir_exists(file_path.as_str()) {
            return Err(S3ErrorCode::InternalError);
        }
        let mut file_writer = self.prepare_file_write(file_path.clone());
        file_writer.write_all(body.as_slice());
        let md5_sum = crate::hash::md5_hex(body.as_slice());
        self.commit_file_write(file_writer);
        self.save_multipart_upload_part(
            upload_id.as_str(),
            input.part_number,
            md5_sum.as_str(),
            file_path.as_str(),
            now,
        );
        let ghost u = upload_id@;
        let ghost pp = spec_part_path(old(self).root@, u, input.part_number as int);
        let ghost row = crate::types::MultipartUploadPartV {
            upload_id: u,
            part_number: input.part_number as int,
            last_modified: now as int,
            md5: md5_sum@,
            data_location: pp,
        };
        proof {
            let oldparts = old(self).datastore.parts_view();
            crate::catalog::lemma_upsert_part(oldparts, row);
            lemma_part_path_shape(old(self).root@, u, input.part_number as int);
            assert forall|i: int|
                0 <= i < self.datastore.parts_view().len() implies crate::backend::part_row_inv(
                self.root@,
                self.spec_disk(),
                #[trigger] self.datastore.parts_view()[i],
            ) by {
                let v = self.datastore.parts_view()[i];
                if v == row {
                    assert(crate::backend::part_row_inv(self.root@, self.spec_disk(), row));
                } else {
                    assert(oldparts.contains(v) && !crate::catalog::part_same_key(v, row));
                    let w = choose|w: int| 0 <= w < oldparts.len() && oldparts[w] == v;
                    assert(crate::backend::part_row_inv(old(self).root@, old(self).spec_disk(), v));
                    if v.data_location == pp {
                        lemma_part_path_injective(
                            self.root@,
                            v.upload_id,
                            v.part_number,
                            u,
                            input.part_number as int,
                        );
                        assert(false);
                    }
                }
            }
            assert forall|i: int|
                0 <= i < self.datastore.objects_view().len() implies crate::backend::obj_row_inv(
                self.root@,
                self.spec_disk(),
                #[trigger] self.datastore.objects_view()[i],
            ) by {
                let v = self.datastore.objects_view()[i];
                assert(crate::backend::obj_row_inv(old(self).root@, old(self).spec_disk(), v));
                let vp = crate::backend::literal_object_path(self.root@, v.bucket, v.key);
                lemma_object_path_not_part(self.root@, v.bucket, v.key);
                if vp == pp {
                    assert(is_part_path(self.root@, pp));
                    assert(false);
                }
            }
            assert forall|p: Seq<char>|
                #[trigger] self.spec_disk().files().contains_key(p) && is_part_path(self.root@, p)
                    implies exists|i: int|
                    0 <= i < self.datastore.parts_view().len() && (
                    #[trigger] self.datastore.parts_view()[i]).data_location == p by {
                if p == pp {
                    crate::catalog::lemma_lookup_part_contains(
                        self.datastore.parts_view(),
                        u,
                        input.part_number as int,
                    );
                    let w = choose|w: int|
                        0 <= w < self.datastore.parts_view().len()
                            && self.datastore.parts_view()[w] == row;
                    assert(self.datastore.parts_view()[w].data_location == p);
                } else {
                    assert(old(self).spec_disk().files().contains_key(p));
                    let w = choose|w: int|
                        0 <= w < oldparts.len() && (#[trigger] oldparts[w]).data_location == p;
                    assert(self.datastore.parts_view() == crate::catalog::upsert_part(
                        oldparts,
                        row,
                    ));
                    crate::catalog::lemma_lookup_part_contains(
                        oldparts,
                        oldparts[w].upload_id,
                        oldparts[w].part_number,
                    );
                    if crate::catalog::part_same_key(oldparts[w], row) {
                        assert(oldparts[w].data_location == pp) by {
                            assert(crate::backend::part_row_inv(
                                old(self).root@,
                                old(self).spec_disk(),
                                oldparts[w],
                            ));
                        }
                        assert(false);
                    }
                    assert(crate::catalog::lookup_part(
                        self.datastore.parts_view(),
                        oldparts[w].upload_id,
                        oldparts[w].part_number,
                    ) == crate::catalog::lookup_part(
                        oldparts,
                        oldparts[w].upload_id,
                        oldparts[w].part_number,
                    ));
                    crate::catalog::lemma_lookup_part_contains(
                        self.datastore.parts_view(),
                        oldparts[w].upload_id,
                        oldparts[w].part_number,
                    );
                    let v2 = crate::catalog::lookup_part(
                        oldparts,
                        oldparts[w].upload_id,
                        oldparts[w].part_number,
                    ).unwrap();
                    let w2 = choose|w2: int|
                        0 <= w2 < self.datastore.parts_view().len()
                            && self.datastore.parts_view()[w2] == v2;
                    assert(crate::backend::part_row_inv(
                        old(self).root@,
                        old(self).spec_disk(),
                        v2,
                    )) by {
                        let w3 = choose|w3: int| 0 <= w3 < oldparts.len() && oldparts[w3] == v2;
                    }
                    assert(v2.data_location == spec_part_path(
                        self.root@,
                        oldparts[w].upload_id,
                        oldparts[w].part_number,
                    ));
                    assert(oldparts[w].data_location == spec_part_path(
                        self.root@,
                        oldparts[w].upload_id,
                        oldparts[w].part_number,
                    )) by {
                        assert(crate::backend::part_row_inv(
                            old(self).root@,
                            old(self).spec_disk(),
                            oldparts[w],
                        ));
                    }
                    assert(self.datastore.parts_view()[w2].data_location == p);
                }
            }
        }
        Ok(UploadPartOutput { e_tag: Some(md5_sum) })
    }
}


/// A request to abort an upload.
#[derive(Debug)]
pub struct AbortMultipartUploadInput {
    pub bucket: String,
    pub key: String,
    pub upload_id: String,
}

/// The response to an aborted upload.
#[derive(Debug)]
pub struct AbortMultipartUploadOutput {
    pub aborted: bool,
}

/// The prefix every part file of one upload shares.
pub open spec fn part_prefix(root: Seq<char>, u: Seq<char>) -> Seq<char> {
    root + "/.upload_id-"@ + u + ".part-"@
}

/// A part path carries the prefix of exactly its own upload.
proof fn lemma_part_prefix(root: Seq<char>, u1: Seq<char>, n: int, u2: Seq<char>)
    requires
        u1.len() == 36,
        u2.len() == 36,
    ensures
        has_prefix(spec_part_path(root, u1, n), part_prefix(root, u2)) <==> u1 == u2,
{
    reveal_strlit("/.upload_id-");
    reveal_strlit(".part-");
    let p = spec_part_path(root, u1, n);
    if u1 == u2 {
        assert(p.subrange(0, part_prefix(root, u2).len() as int) =~= part_prefix(root, u2));
    }
    if has_prefix(p, part_prefix(root, u2)) {
        assert(u1 =~= u2) by {
            assert forall|j: int| 0 <= j < 36 implies u1[j] == u2[j] by {
                assert(p[root.len() as int + 12 + j] == u1[j]);
                assert(p.subrange(0, part_prefix(root, u2).len() as int)[root.len() as int + 12
                    + j] == u2[j]);
            }
        }
    }
}

impl StorageBackend {
    /// Aborts an upload: removes every stored part file and the upload's
    /// rows. Afterwards no part file of this upload exists and the catalog
    /// no longer lists it.
    #[verifier::rlimit(100)]
    pub fn abort_multipart_upload(
        &mut self,
        input: AbortMultipartUploadInput,
        credentials: Option<&crate::types::Credentials>,
    ) -> (r: Result<AbortMultipartUploadOutput, S3ErrorCode>)
        requires
            old(self).inv(),
        ensures
            final(self).inv(),
            final(self).root@ == old(self).root@,
            final(self).datastore.objects_view() == old(self).datastore.objects_view(),
            r is Err ==> final(self).datastore == old(self).datastore && final(self).spec_disk()
                == old(self).spec_disk(),
            crate::path::spec_resolve(old(self).root@, input.bucket@) is None ==> r == Err::<
                AbortMultipartUploadOutput,
                S3ErrorCode,
            >(S3ErrorCode::InvalidRequest),
            crate::path::spec_resolve(old(self).root@, input.bucket@) matches Some(bp) && !old(
                self,
            ).spec_disk().spec_path_exists(bp) ==> r == Err::<
                AbortMultipartUploadOutput,
                S3ErrorCode,
            >(S3ErrorCode::NoSuchBucket),
            ({
                let bucket_ok = crate::path::spec_resolve(old(self).root@, input.bucket@) is Some
                    && old(self).spec_disk().spec_path_exists(
                    crate::path::spec_resolve(old(self).root@, input.bucket@).unwrap(),
                );
                let parsed = crate::backend::uuid_parse_ok(input.upload_id@);
                let u = crate::backend::uuid_normal_of(input.upload_id@);
                let granted = crate::backend::spec_access_granted(
                    old(self).datastore.uploads_view(),
                    credentials,
                    u,
                );
                let has_parts = old(self).datastore.parts_view().filter(
                    (|p: crate::types::MultipartUploadPartV| p.upload_id == u),
                ).len() > 0;
                &&& (r is Ok <==> bucket_ok && parsed && granted && has_parts)
                &&& (bucket_ok && !parsed ==> r == Err::<AbortMultipartUploadOutput, S3ErrorCode>(
                    S3ErrorCode::InvalidRequest,
                ))
                &&& (bucket_ok && parsed && !granted ==> r == Err::<
                    AbortMultipartUploadOutput,
                    S3ErrorCode,
                >(S3ErrorCode::AccessDenied))
                &&& (bucket_ok && parsed && granted && !has_parts ==> r == Err::<
                    AbortMultipartUploadOutput,
                    S3ErrorCode,
                >(S3ErrorCode::NoSuchUpload))
            }),
            r is Ok ==> {
                let u = crate::backend::uuid_normal_of(input.upload_id@);
                &&& crate::backend::uuid_parse_ok(input.upload_id@)
                &&& lookup_upload(final(self).datastore.uploads_view(), u) is None
                &&& (forall|i: int|
                    0 <= i < final(self).datastore.parts_view().len()
                        ==> (#[trigger] final(self).datastore.parts_view()[i]).upload_id != u)
                &&& (forall|p: Seq<char>|
                    #[trigger] final(self).spec_disk().files().contains_key(p) && is_part_path(
                        final(self).root@,
                        p,
                    ) ==> !has_prefix(p, part_prefix(final(self).root@, u)))
            },
    {
        let bucket_path = match self.get_bucket_path(input.bucket.as_str()) {
            Ok(p) => p,
            Err(_) => {
                return Err(S3ErrorCode::InvalidRequest);
            },
        };
        if !self.path_exists(bucket_path.as_str()) {
            return Err(S3ErrorCode::NoSuchBucket);
        }
        let upload_id = match crate::backend::normalize_uuid(input.upload_id.as_str()) {
            Some(u) => u,
            None => {
                return Err(S3ErrorCode::InvalidRequest);
            },
        };
        let granted = match self.verify_access_key_by_upload_id(credentials, upload_id.as_str()) {
            Ok(g) => g,
            Err(_) => false,
        };
        if !granted {
            return Err(S3ErrorCode::AccessDenied);
        }
        proof {
            crate::catalog::lemma_lookup_upload_contains(
                self.datastore.uploads_view(),
                upload_id@,
            );
        }
        let parts = self.datastore.parts_of_upload(upload_id.as_str());
        if parts.len() == 0 {
            return Err(S3ErrorCode::NoSuchUpload);
        }
        let ghost u = upload_id@;
        let ghost oldparts = old(self).datastore.parts_view();
        let ghost ppred = |p: crate::types::MultipartUploadPartV| p.upload_id == u;
        let ghost partsview = parts.deep_view();
        let n: usize = parts.len();
        let mut i: usize = 0;
        proof {
            crate::catalog::lemma_filter_sorted_parts(oldparts, ppred);
        }
        while i < n
            invariant
                n == partsview.len(),
                0 <= i <= n,
                parts.deep_view() == partsview,
                partsview == oldparts.filter(ppred),
                ppred == (|p: crate::types::MultipartUploadPartV| p.upload_id == u),
                self.root@ == old(self).root@,
                self.datastore == old(self).datastore,
                old(self).inv(),
                self.spec_disk().wf(),
                self.spec_disk().dirs() == old(self).spec_disk().dirs(),
                forall|p: Seq<char>|
                    #[trigger] self.spec_disk().files().contains_key(p) <==> (old(
                        self,
                    ).spec_disk().files().contains_key(p) && !(exists|j: int|
                        0 <= j < i && (#[trigger] partsview[j]).data_location == p)),
                forall|p: Seq<char>|
                    #[trigger] self.spec_disk().files().contains_key(p)
                        ==> self.spec_disk().files()[p] == old(self).spec_disk().files()[p],
            decreases n - i,
        {
            let dl = parts[i].data_location.clone();
            proof {
                assert(partsview[i as int].data_location == dl@);
            }
            self.remove_file(dl.as_str());
            proof {
                assert forall|p: Seq<char>|
                    #[trigger] self.spec_disk().files().contains_key(p) <==> (old(
                        self,
                    ).spec_disk().files().contains_key(p) && !(exists|j: int|
                        0 <= j < i + 1 && (#[trigger] partsview[j]).data_location == p)) by {
                    if p != dl@ {
                        if exists|j: int|
                            0 <= j < i + 1 && (#[trigger] partsview[j]).data_location == p {
                            let j = choose|j: int|
                                0 <= j < i + 1 && (#[trigger] partsview[j]).data_location == p;
                            assert(j < i);
                        }
                    } else {
                        assert(partsview[i as int].data_location == p);
                    }
                }
            }
            i += 1;
        }
        self.datastore.delete_multipart_upload_by_upload_id(upload_id.as_str());
        proof {
            let fparts = self.datastore.parts_view();
            let keep = |p: crate::types::MultipartUploadPartV| p.upload_id != u;
            assert(fparts == oldparts.filter(keep));
            crate::catalog::lemma_filter_sorted_parts(oldparts, keep);
            broadcast use vstd::seq_lib::group_filter_ensures;

            assert forall|i2: int|
                0 <= i2 < fparts.len() implies crate::backend::part_row_inv(
                self.root@,
                self.spec_disk(),
                #[trigger] fparts[i2],
            ) by {
                let v = fparts[i2];
                assert(oldparts.contains(v));
                let w = choose|w: int| 0 <= w < oldparts.len() && oldparts[w] == v;
                assert(crate::backend::part_row_inv(old(self).root@, old(self).spec_disk(), v));
                assert(v.upload_id != u);
                if exists|j: int| 0 <= j < partsview.len() && (#[trigger] partsview[j]).data_location
                    == v.data_location {
                    let j = choose|j: int|
                        0 <= j < partsview.len() && (#[trigger] partsview[j]).data_location
                            == v.data_location;
                    assert(oldparts.contains(partsview[j]));
                    let w2 = choose|w2: int| 0 <= w2 < oldparts.len() && oldparts[w2] == partsview[j];
                    assert(crate::backend::part_row_inv(
                        old(self).root@,
                        old(self).spec_disk(),
                        partsview[j],
                    ));
                    assert(partsview[j].upload_id == u);
                    lemma_part_path_injective(
                        self.root@,
                        v.upload_id,
                        v.part_number,
                        partsview[j].upload_id,
                        partsview[j].part_number,
                    );
                    assert(false);
                }
            }
            assert forall|i2: int|
                0 <= i2 < self.datastore.objects_view().len() implies crate::backend::obj_row_inv(
                self.root@,
                self.spec_disk(),
                #[trigger] self.datastore.objects_view()[i2],
            ) by {
                let v = self.datastore.objects_view()[i2];
                assert(crate::backend::obj_row_inv(old(self).root@, old(self).spec_disk(), v));
                let vp = crate::backend::literal_object_path(self.root@, v.bucket, v.key);
                lemma_object_path_not_part(self.root@, v.bucket, v.key);
                if self.spec_disk().files().contains_key(vp) {
                    assert(old(self).spec_disk().files().contains_key(vp));
                }
                if old(self).spec_disk().files().contains_key(vp)
                    && !self.spec_disk().files().contains_key(vp) {
                    let j = choose|j: int|
                        0 <= j < partsview.len() && (#[trigger] partsview[j]).data_location == vp;
                    assert(oldparts.contains(partsview[j]));
                    let w2 = choose|w2: int| 0 <= w2 < oldparts.len() && oldparts[w2] == partsview[j];
                    assert(crate::backend::part_row_inv(
                        old(self).root@,
                        old(self).spec_disk(),
                        partsview[j],
                    ));
                    lemma_part_path_shape(self.root@, partsview[j].upload_id, partsview[j].part_number);
                    assert(is_part_path(self.root@, vp));
                    assert(false);
                }
            }
            assert forall|i2: int|
                0 <= i2 < self.datastore.uploads_view().len() implies crate::backend::upload_row_inv(
                self.root@,
                #[trigger] self.datastore.uploads_view()[i2],
            ) by {
                let v = self.datastore.uploads_view()[i2];
                let ukeep = |x: crate::types::MultipartUploadV| x.upload_id != u;
                assert(self.datastore.uploads_view() == old(self).datastore.uploads_view().filter(
                    ukeep,
                ));
                crate::catalog::lemma_filter_unique_uploads(
                    old(self).datastore.uploads_view(),
                    ukeep,
                );
                assert(old(self).datastore.uploads_view().contains(v));
                let w = choose|w: int|
                    0 <= w < old(self).datastore.uploads_view().len() && old(
                        self,
                    ).datastore.uploads_view()[w] == v;
            }
            assert forall|p: Seq<char>|
                #[trigger] self.spec_disk().files().contains_key(p) && is_part_path(self.root@, p)
                    implies exists|i2: int|
                    0 <= i2 < fparts.len() && (#[trigger] fparts[i2]).data_location == p by {
                assert(old(self).spec_disk().files().contains_key(p));
                let w = choose|w: int|
                    0 <= w < oldparts.len() && (#[trigger] oldparts[w]).data_location == p;
                assert(crate::backend::part_row_inv(
                    old(self).root@,
                    old(self).spec_disk(),
                    oldparts[w],
                ));
                if oldparts[w].upload_id == u {
                    assert(oldparts.filter(ppred).contains(oldparts[w]));
                    let j = choose|j: int|
                        0 <= j < partsview.len() && partsview[j] == oldparts[w];
                    assert(partsview[j].data_location == p);
                    assert(!self.spec_disk().files().contains_key(p));
                    assert(false);
                }
                assert(keep(oldparts[w]));
                assert(fparts.contains(oldparts[w]));
                let w2 = choose|w2: int| 0 <= w2 < fparts.len() && fparts[w2] == oldparts[w];
                assert(fparts[w2].data_location == p);
            }
            // no part file of this upload remains
            assert forall|p: Seq<char>|
                #[trigger] self.spec_disk().files().contains_key(p) && is_part_path(
                self.root@,
                p,
            ) implies !has_prefix(p, part_prefix(self.root@, u)) by {
                if has_prefix(p, part_prefix(self.root@, u)) {
                    assert(old(self).spec_disk().files().contains_key(p));
                    let w = choose|w: int|
                        0 <= w < oldparts.len() && (#[trigger] oldparts[w]).data_location == p;
                    assert(crate::backend::part_row_inv(
                        old(self).root@,
                        old(self).spec_disk(),
                        oldparts[w],
                    ));
                    lemma_part_prefix(self.root@, oldparts[w].upload_id, oldparts[w].part_number, u);
                    assert(oldparts[w].upload_id == u);
                    assert(oldparts.filter(ppred).contains(oldparts[w]));
                    let j = choose|j: int|
                        0 <= j < partsview.len() && partsview[j] == oldparts[w];
                    assert(partsview[j].data_location == p);
                    assert(!self.spec_disk().files().contains_key(p));
                    assert(false);
                }
            }
            // the upload row is gone
            crate::catalog::lemma_lookup_upload_contains(self.datastore.uploads_view(), u);
            if lookup_upload(self.datastore.uploads_view(), u) is Some {
                let v = lookup_upload(self.datastore.uploads_view(), u).unwrap();
                let ukeep = |x: crate::types::MultipartUploadV| x.upload_id != u;
                assert(self.datastore.uploads_view() == old(self).datastore.uploads_view().filter(
                    ukeep,
                ));
                let w = choose|w: int|
                    0 <= w < self.datastore.uploads_view().len()
                        && self.datastore.uploads_view()[w] == v;
                assert(ukeep(self.datastore.uploads_view()[w]));
                assert(false);
            }
        }
        Ok(AbortMultipartUploadOutput { aborted: true })
    }
}


/// One part reference in a completion request.
#[derive(Debug)]
pub struct CompletedPart {
    pub e_tag: Option<String>,
    pub part_number: Option<i32>,
}

/// The part list of a completion request; its presence signals intent, the
/// catalog order is authoritative.
#[derive(Debug)]
pub struct CompletedMultipartUpload {
    pub parts: Option<Vec<CompletedPart>>,
}

/// A request to complete an upload.
#[derive(Debug)]
pub struct CompleteMultipartUploadInput {
    pub multipart_upload: Option<CompletedMultipartUpload>,
    pub upload_id: String,
}

/// The response to a completed upload.
#[derive(Debug)]
pub struct CompleteMultipartUploadOutput {
    pub bucket: String,
    pub key: String,
    pub e_tag: Option<String>,
}

/// The object body assembled from part rows, in row order.
pub open spec fn assembled(s: Seq<crate::types::MultipartUploadPartV>, files: Map<Seq<char>, Seq<u8>>) -> Seq<u8>
    decreases s.len(),
{
    if s.len() == 0 {
        Seq::<u8>::empty()
    } else {
        assembled(s.drop_last(), files) + files[s.last().data_location]
    }
}

/// Whether a completion request carries a nonempty part list.
pub open spec fn has_parts_list(input: &CompleteMultipartUploadInput) -> bool {
    match input.multipart_upload {
        Some(mu) => match mu.parts {
            Some(ps) => ps@.len() > 0,
            None => false,
        },
        None => false,
    }
}

impl StorageBackend {
    /// Completes an upload: concatenates the stored parts in ascending part
    /// number order into the object's path, records the object row with the
    /// assembled body's MD5 as its ETag and the upload's metadata, and
    /// removes the part files and the upload's rows.
    #[verifier::rlimit(100)]
    pub fn complete_multipart_upload(
        &mut self,
        input: CompleteMultipartUploadInput,
        credentials: Option<&crate::types::Credentials>,
        now: i64,
    ) -> (r: Result<CompleteMultipartUploadOutput, S3ErrorCode>)
        requires
            old(self).inv(),
        ensures
            final(self).inv(),
            final(self).root@ == old(self).root@,
            r is Err ==> final(self).datastore == old(self).datastore && final(self).spec_disk()
                == old(self).spec_disk(),
            !has_parts_list(&input) ==> r == Err::<CompleteMultipartUploadOutput, S3ErrorCode>(
                S3ErrorCode::InvalidPart,
            ),
            has_parts_list(&input) && !crate::backend::uuid_parse_ok(input.upload_id@) ==> r
                == Err::<CompleteMultipartUploadOutput, S3ErrorCode>(S3ErrorCode::InvalidRequest),
            has_parts_list(&input) && crate::backend::uuid_parse_ok(input.upload_id@)
                && lookup_upload(
                old(self).datastore.uploads_view(),
                crate::backend::uuid_normal_of(input.upload_id@),
            ) is None ==> r == Err::<CompleteMultipartUploadOutput, S3ErrorCode>(
                S3ErrorCode::NoSuchUpload,
            ),
            has_parts_list(&input) && crate::backend::uuid_parse_ok(input.upload_id@)
                && lookup_upload(
                old(self).datastore.uploads_view(),
                crate::backend::uuid_normal_of(input.upload_id@),
            ) is Some && !crate::backend::spec_access_granted(
                old(self).datastore.uploads_view(),
                credentials,
                crate::backend::uuid_normal_of(input.upload_id@),
            ) ==> r == Err::<CompleteMultipartUploadOutput, S3ErrorCode>(S3ErrorCode::AccessDenied),
            ({
                let u = crate::backend::uuid_normal_of(input.upload_id@);
                let found = lookup_upload(old(self).datastore.uploads_view(), u);
                let settled = has_parts_list(&input) && crate::backend::uuid_parse_ok(
                    input.upload_id@,
                ) && found is Some && crate::backend::spec_access_granted(
                    old(self).datastore.uploads_view(),
                    credentials,
                    u,
                );
                let writable = found matches Some(m) && crate::backend::storable(
                    old(self).root@,
                    m.bucket,
                    m.key,
                ) && !old(self).spec_disk().spec_dir_exists(
                    literal_object_path(old(self).root@, m.bucket, m.key),
                );
                &&& (r is Ok <==> settled && writable)
                &&& (settled && !writable ==> r == Err::<CompleteMultipartUploadOutput, S3ErrorCode>(
                    S3ErrorCode::InternalError,
                ))
            }),
            r is Ok ==> {
                let u = crate::backend::uuid_normal_of(input.upload_id@);
                let m = lookup_upload(old(self).datastore.uploads_view(), u).unwrap();
                let body = assembled(
                    old(self).datastore.parts_view().filter(
                        |p: crate::types::MultipartUploadPartV| p.upload_id == u,
                    ),
                    old(self).spec_disk().files(),
                );
                let lit = literal_object_path(old(self).root@, m.bucket, m.key);
                &&& lookup_upload(old(self).datastore.uploads_view(), u) is Some
                &&& r->Ok_0.bucket@ == m.bucket
                &&& r->Ok_0.key@ == m.key
                &&& (r->Ok_0.e_tag matches Some(t) && t@ == spec_etag(body))
                &&& final(self).spec_disk().files().contains_key(lit)
                &&& final(self).spec_disk().files()[lit] == body
                &&& (match lookup_obj(final(self).datastore.objects_view(), m.bucket, m.key) {
                    Some(row) => {
                        &&& row.e_tag == spec_etag(body)
                        &&& row.last_modified == now as int
                        &&& row.data_location == m.bucket + seq!['/'] + m.key
                        &&& (match spec_parse(m.metadata) {
                            Some(es) => crate::strmap::keys_distinct(es) ==> row.metadata
                                == crate::json::json_object(es),
                            None => row.metadata == crate::json::json_object(
                                Seq::<(Seq<char>, Seq<char>)>::empty(),
                            ),
                        })
                    },
                    None => false,
                })
                &&& lookup_upload(final(self).datastore.uploads_view(), u) is None
                &&& (forall|i: int|
                    0 <= i < final(self).datastore.parts_view().len()
                        ==> (#[trigger] final(self).datastore.parts_view()[i]).upload_id != u)
            },
    {
        let has_list = match input.multipart_upload {
            Some(ref mu) => match mu.parts {
                Some(ref ps) => ps.len() > 0,
                None => false,
            },
            None => false,
        };
        if !has_list {
            return Err(S3ErrorCode::InvalidPart);
        }
        let upload_id = match crate::backend::normalize_uuid(input.upload_id.as_str()) {
            Some(u) => u,
            None => {
                return Err(S3ErrorCode::InvalidRequest);
            },
        };
        let m = match self.datastore.get_multipart_upload_by_upload_id(upload_id.as_str()) {
            Some(m) => m,
            None => {
                return Err(S3ErrorCode::NoSuchUpload);
            },
        };
        let granted = match self.verify_access_key_by_upload_id(credentials, upload_id.as_str()) {
            Ok(g) => g,
            Err(_) => false,
        };
        if !granted {
            return Err(S3ErrorCode::AccessDenied);
        }
        if !self.check_storable(m.bucket.as_str(), m.key.as_str()) {
            return Err(S3ErrorCode::InternalError);
        }
        let ghost u = upload_id@;
        let ghost oldparts = old(self).datastore.parts_view();
        let ghost ppred = |p: crate::types::MultipartUploadPartV| p.upload_id == u;
        let parts = self.datastore.parts_of_upload(upload_id.as_str());
        let ghost partsview = parts.deep_view();
        proof {
            crate::catalog::lemma_filter_sorted_parts(oldparts, ppred);
        }
        // assemble the object body from the parts, in catalog order
        let mut buf: Vec<u8> = Vec::new();
        let n: usize = parts.len();
        let mut i: usize = 0;
        while i < n
            invariant
                n == partsview.len(),
                0 <= i <= n,
                parts.deep_view() == partsview,
                partsview == oldparts.filter(ppred),
                self.inv(),
                *self == *old(self),
                buf@ == assembled(partsview.subrange(0, i as int), self.spec_disk().files()),
                forall|j: int|
                    0 <= j < partsview.len() ==> self.spec_disk().files().contains_key(
                        (#[trigger] partsview[j]).data_location,
                    ),
            decreases n - i,
        {
            let ghost oldbuf = buf@;
            let dl = parts[i].data_location.clone();
            proof {
                assert(partsview[i as int].data_location == dl@);
            }
            let content = match self.read_file(dl.as_str()) {
                Some(c) => c,
                None => {
                    proof {
                        assert(false);
                    }
                    return Err(S3ErrorCode::InternalError);
                },
            };
            buf.extend_from_slice(content.as_slice());
            proof {
                assert(partsview.subrange(0, i + 1).drop_last() =~= partsview.subrange(0, i as int));
                assert(partsview.subrange(0, i + 1).last() == partsview[i as int]);
                assert(buf@ =~= assembled(
                    partsview.subrange(0, i + 1),
                    self.spec_disk().files(),
                ));
            }
            i += 1;
        }
        proof {
            assert(partsview.subrange(0, n as int) =~= partsview);
            assert(forall|j: int|
                0 <= j < oldparts.len() ==> crate::backend::part_row_inv(
                    self.root@,
                    self.spec_disk(),
                    #[trigger] oldparts[j],
                ));
        }
        // stage the assembled object
        let mut lit: String = self.root.clone();
        push_str(&mut lit, "/");
        push_str(&mut lit, m.bucket.as_str());
        push_str(&mut lit, "/");
        push_str(&mut lit, m.key.as_str());
        proof {
            reveal_strlit("/");
            assert(lit@ =~= literal_object_path(self.root@, m.bucket@, m.key@));
        }
        if self.dir_exists(lit.as_str()) {
            return Err(S3ErrorCode::InternalError);
        }
        let ghost body = buf@;
        let mut file_writer = self.prepare_file_write(lit.clone());
        file_writer.write_all(buf.as_slice());
        self.commit_file_write(file_writer);
        let md5_sum = match self.get_md5_sum(m.bucket.as_str(), m.key.as_str()) {
            Ok(s) => s,
            Err(_) => {
                proof {
                    assert(false);
                }
                return Err(S3ErrorCode::InternalError);
            },
        };
        let metadata = crate::json::metadata_from_string(m.metadata.as_str());
        let empty_info = StrMap::new();
        let save_result = self.save_s3_item_detail(
            m.bucket.as_str(),
            m.key.as_str(),
            md5_sum.as_str(),
            Some(&metadata),
            &empty_info,
            now,
        );
        match save_result {
            Ok(()) => {},
            Err(_) => {
                proof {
                    assert(false);
                }
                return Err(S3ErrorCode::InternalError);
            },
        }
        let ghost mid2 = *self;
        // remove the part files, then the upload's rows
        let n2: usize = parts.len();
        let mut k: usize = 0;
        while k < n2
            invariant
                n2 == partsview.len(),
                0 <= k <= n2,
                parts.deep_view() == partsview,
                self.root@ == mid2.root@,
                self.datastore == mid2.datastore,
                self.spec_disk().wf(),
                self.spec_disk().dirs() == mid2.spec_disk().dirs(),
                forall|p: Seq<char>|
                    #[trigger] self.spec_disk().files().contains_key(p) <==> (
                    mid2.spec_disk().files().contains_key(p) && !(exists|j: int|
                        0 <= j < k && (#[trigger] partsview[j]).data_location == p)),
                forall|p: Seq<char>|
                    #[trigger] self.spec_disk().files().contains_key(p)
                        ==> self.spec_disk().files()[p] == mid2.spec_disk().files()[p],
            decreases n2 - k,
        {
            let dl = parts[k].data_location.clone();
            proof {
                assert(partsview[k as int].data_location == dl@);
            }
            self.remove_file(dl.as_str());
            proof {
                assert forall|p: Seq<char>|
                    #[trigger] self.spec_disk().files().contains_key(p) <==> (
                    mid2.spec_disk().files().contains_key(p) && !(exists|j: int|
                        0 <= j < k + 1 && (#[trigger] partsview[j]).data_location == p)) by {
                    if p != dl@ {
                        if exists|j: int|
                            0 <= j < k + 1 && (#[trigger] partsview[j]).data_location == p {
                            let j = choose|j: int|
                                0 <= j < k + 1 && (#[trigger] partsview[j]).data_location == p;
                            assert(j < k);
                        }
                    } else {
                        assert(partsview[k as int].data_location == p);
                    }
                }
            }
            k += 1;
        }
        self.datastore.delete_multipart_upload_by_upload_id(upload_id.as_str());
        proof {
            let newobjs = mid2.datastore.objects_view();
            let row = crate::backend::saved_row(
                m.bucket@,
                m.key@,
                md5_sum@,
                Some(metadata@),
                empty_info@,
                now as int,
            );
            crate::catalog::lemma_upsert_obj(old(self).datastore.objects_view(), row);
            let fparts = self.datastore.parts_view();
            let keep = |p: crate::types::MultipartUploadPartV| p.upload_id != u;
            assert(fparts == oldparts.filter(keep));
            crate::catalog::lemma_filter_sorted_parts(oldparts, keep);
            broadcast use vstd::seq_lib::group_filter_ensures;

            let litv = lit@;
            lemma_object_path_not_part(self.root@, m.bucket@, m.key@);
            // the part files of this upload are exactly the removed ones
            assert forall|i2: int|
                0 <= i2 < fparts.len() implies crate::backend::part_row_inv(
                self.root@,
                self.spec_disk(),
                #[trigger] fparts[i2],
            ) by {
                let v = fparts[i2];
                assert(oldparts.contains(v));
                let w = choose|w: int| 0 <= w < oldparts.len() && oldparts[w] == v;
                assert(crate::backend::part_row_inv(old(self).root@, old(self).spec_disk(), v));
                assert(v.upload_id != u);
                assert(v.data_location != litv) by {
                    lemma_part_path_shape(self.root@, v.upload_id, v.part_number);
                    if v.data_location == litv {
                        assert(is_part_path(self.root@, litv));
                        assert(false);
                    }
                }
                assert(mid2.spec_disk().files().contains_key(v.data_location));
                if exists|j: int|
                    0 <= j < partsview.len() && (#[trigger] partsview[j]).data_location
                        == v.data_location {
                    let j = choose|j: int|
                        0 <= j < partsview.len() && (#[trigger] partsview[j]).data_location
                            == v.data_location;
                    assert(oldparts.contains(partsview[j]));
                    let w2 = choose|w2: int| 0 <= w2 < oldparts.len() && oldparts[w2] == partsview[j];
                    assert(crate::backend::part_row_inv(
                        old(self).root@,
                        old(self).spec_disk(),
                        partsview[j],
                    ));
                    lemma_part_path_injective(
                        self.root@,
                        v.upload_id,
                        v.part_number,
                        partsview[j].upload_id,
                        partsview[j].part_number,
                    );
                    assert(false);
                }
            }
            assert forall|i2: int|
                0 <= i2 < self.datastore.objects_view().len() implies crate::backend::obj_row_inv(
                self.root@,
                self.spec_disk(),
                #[trigger] self.datastore.objects_view()[i2],
            ) by {
                let v = self.datastore.objects_view()[i2];
                let vp = crate::backend::literal_object_path(self.root@, v.bucket, v.key);
                if v == row {
                    assert(crate::backend::obj_row_inv(self.root@, self.spec_disk(), row)) by {
                        assert(vp == litv);
                        assert(mid2.spec_disk().files().contains_key(litv));
                        assert(mid2.spec_disk().files()[litv] == body);
                        if !self.spec_disk().files().contains_key(litv) {
                            let j = choose|j: int|
                                0 <= j < partsview.len() && (#[trigger] partsview[j]).data_location
                                    == litv;
                            assert(oldparts.contains(partsview[j]));
                            let w2 = choose|w2: int|
                                0 <= w2 < oldparts.len() && oldparts[w2] == partsview[j];
                            assert(crate::backend::part_row_inv(
                                old(self).root@,
                                old(self).spec_disk(),
                                partsview[j],
                            ));
                            lemma_part_path_shape(
                                self.root@,
                                partsview[j].upload_id,
                                partsview[j].part_number,
                            );
                            assert(is_part_path(self.root@, litv));
                            assert(false);
                        }
                        assert(self.spec_disk().files()[litv] == body);
                        assert(md5_sum@ == spec_etag(body));
                    }
                } else {
                    assert(old(self).datastore.objects_view().contains(v)
                        && !crate::catalog::obj_same_key(v, row));
                    let w = choose|w: int|
                        0 <= w < old(self).datastore.objects_view().len() && old(
                            self,
                        ).datastore.objects_view()[w] == v;
                    assert(crate::backend::obj_row_inv(old(self).root@, old(self).spec_disk(), v));
                    if vp == litv {
                        crate::backend::lemma_literal_path_injective(
                            self.root@,
                            v.bucket,
                            v.key,
                            m.bucket@,
                            m.key@,
                        );
                        assert(false);
                    }
                    if self.spec_disk().files().contains_key(vp) {
                        assert(mid2.spec_disk().files().contains_key(vp));
                        assert(old(self).spec_disk().files().contains_key(vp));
                        assert(self.spec_disk().files()[vp] == old(self).spec_disk().files()[vp]);
                    }
                }
            }
            assert forall|i2: int|
                0 <= i2 < self.datastore.uploads_view().len() implies crate::backend::upload_row_inv(
                self.root@,
                #[trigger] self.datastore.uploads_view()[i2],
            ) by {
                let v = self.datastore.uploads_view()[i2];
                let ukeep = |x: crate::types::MultipartUploadV| x.upload_id != u;
                assert(self.datastore.uploads_view() == old(self).datastore.uploads_view().filter(
                    ukeep,
                ));
                crate::catalog::lemma_filter_unique_uploads(
                    old(self).datastore.uploads_view(),
                    ukeep,
                );
                assert(old(self).datastore.uploads_view().contains(v));
                let w = choose|w: int|
                    0 <= w < old(self).datastore.uploads_view().len() && old(
                        self,
                    ).datastore.uploads_view()[w] == v;
            }
            assert forall|p: Seq<char>|
                #[trigger] self.spec_disk().files().contains_key(p) && is_part_path(self.root@, p)
                    implies exists|i2: int|
                    0 <= i2 < fparts.len() && (#[trigger] fparts[i2]).data_location == p by {
                assert(mid2.spec_disk().files().contains_key(p));
                assert(p != litv);
                assert(old(self).spec_disk().files().contains_key(p));
                let w = choose|w: int|
                    0 <= w < oldparts.len() && (#[trigger] oldparts[w]).data_location == p;
                assert(crate::backend::part_row_inv(
                    old(self).root@,
                    old(self).spec_disk(),
                    oldparts[w],
                ));
                if oldparts[w].upload_id == u {
                    assert(oldparts.filter(ppred).contains(oldparts[w]));
                    let j = choose|j: int|
                        0 <= j < partsview.len() && partsview[j] == oldparts[w];
                    assert(partsview[j].data_location == p);
                    assert(!self.spec_disk().files().contains_key(p));
                    assert(false);
                }
                assert(keep(oldparts[w]));
                assert(fparts.contains(oldparts[w]));
                let w2 = choose|w2: int| 0 <= w2 < fparts.len() && fparts[w2] == oldparts[w];
                assert(fparts[w2].data_location == p);
            }
            crate::catalog::lemma_lookup_upload_contains(self.datastore.uploads_view(), u);
            if lookup_upload(self.datastore.uploads_view(), u) is Some {
                let v = lookup_upload(self.datastore.uploads_view(), u).unwrap();
                let ukeep = |x: crate::types::MultipartUploadV| x.upload_id != u;
                let w = choose|w: int|
                    0 <= w < self.datastore.uploads_view().len()
                        && self.datastore.uploads_view()[w] == v;
                assert(ukeep(self.datastore.uploads_view()[w]));
                assert(false);
            }
            // the assembled object stands at its path
            assert(self.spec_disk().files().contains_key(litv)) by {
                assert(mid2.spec_disk().files().contains_key(litv));
                if !self.spec_disk().files().contains_key(litv) {
                    let j = choose|j: int|
                        0 <= j < partsview.len() && (#[trigger] partsview[j]).data_location
                            == litv;
                    assert(oldparts.contains(partsview[j]));
                    let w2 = choose|w2: int|
                        0 <= w2 < oldparts.len() && oldparts[w2] == partsview[j];
                    assert(crate::backend::part_row_inv(
                        old(self).root@,
                        old(self).spec_disk(),
                        partsview[j],
                    ));
                    lemma_part_path_shape(
                        self.root@,
                        partsview[j].upload_id,
                        partsview[j].part_number,
                    );
                    assert(is_part_path(self.root@, litv));
                    assert(false);
                }
            }
            assert(self.spec_disk().files()[litv] == body);
            assert(md5_sum@ == spec_etag(body));
        }
        Ok(CompleteMultipartUploadOutput { bucket: m.bucket, key: m.key, e_tag: Some(md5_sum) })
    }
}


/// A request to list the stored parts of an upload.
#[derive(Debug)]
pub struct ListPartsInput {
    pub bucket: String,
    pub key: String,
    pub upload_id: String,
}

/// Ghost value of one listed part.
pub ghost struct PartV {
    pub last_modified: int,
    pub part_number: int,
    pub size: int,
    pub e_tag: Option<Seq<char>>,
}

/// One listed part: its number, stored size, and MD5.
#[derive(Debug)]
pub struct Part {
    pub last_modified: i64,
    pub part_number: i32,
    pub size: usize,
    pub e_tag: Option<String>,
}

impl View for Part {
    type V = PartV;

    open spec fn view(&self) -> PartV {
        PartV {
            last_modified: self.last_modified as int,
            part_number: self.part_number as int,
            size: self.size as int,
            e_tag: match self.e_tag {
                Some(t) => Some(t@),
                None => None,
            },
        }
    }
}

impl DeepView for Part {
    type V = PartV;

    open spec fn deep_view(&self) -> PartV {
        self.view()
    }
}

/// The response to a part listing.
#[derive(Debug)]
pub struct ListPartsOutput {
    pub bucket: String,
    pub key: String,
    pub upload_id: String,
    pub parts: Vec<Part>,
}

/// The listed form of one part row.
pub open spec fn part_entry(p: crate::types::MultipartUploadPartV, files: Map<Seq<char>, Seq<u8>>) -> PartV {
    PartV {
        last_modified: p.last_modified,
        part_number: p.part_number,
        size: files[p.data_location].len() as int,
        e_tag: Some(p.md5),
    }
}

/// A listed object row.
pub ghost struct ObjectV {
    pub key: Seq<char>,
    pub last_modified: int,
    pub e_tag: Option<Seq<char>>,
    pub size: int,
}

/// One listed object: its key, modification time, ETag and stored size.
#[derive(Debug)]
pub struct Object {
    pub key: String,
    pub last_modified: i64,
    pub e_tag: Option<String>,
    pub size: usize,
}

impl View for Object {
    type V = ObjectV;

    open spec fn view(&self) -> ObjectV {
        ObjectV {
            key: self.key@,
            last_modified: self.last_modified as int,
            e_tag: match self.e_tag {
                Some(t) => Some(t@),
                None => None,
            },
            size: self.size as int,
        }
    }
}

impl DeepView for Object {
    type V = ObjectV;

    open spec fn deep_view(&self) -> ObjectV {
        self.view()
    }
}

/// The listed form of one object row.
pub open spec fn object_entry(v: S3ItemDetailV, files: Map<Seq<char>, Seq<u8>>, root: Seq<char>) -> ObjectV {
    ObjectV {
        key: v.key,
        last_modified: v.last_modified,
        e_tag: Some(v.e_tag),
        size: files[literal_object_path(root, v.bucket, v.key)].len() as int,
    }
}

/// A bucket listing request carries nothing.
#[derive(Debug)]
pub struct ListBucketsInput {
    pub marker: Option<String>,
}

/// One listed bucket.
#[derive(Debug)]
pub struct Bucket {
    pub name: String,
    pub creation_date: Option<i64>,
}

/// The response to a bucket listing.
#[derive(Debug)]
pub struct ListBucketsOutput {
    pub buckets: Vec<Bucket>,
}

/// An object listing request.
#[derive(Debug)]
pub struct ListObjectsV2Input {
    pub bucket: String,
    pub prefix: Option<String>,
    pub delimiter: Option<String>,
    pub encoding_type: Option<String>,
}

/// The response to an object listing.
#[derive(Debug)]
pub struct ListObjectsV2Output {
    pub key_count: i32,
    pub max_keys: i32,
    pub contents: Vec<Object>,
    pub delimiter: Option<String>,
    pub encoding_type: Option<String>,
    pub name: String,
    pub prefix: Option<String>,
}

/// An object listing request, first protocol version.
#[derive(Debug)]
pub struct ListObjectsInput {
    pub bucket: String,
    pub prefix: Option<String>,
    pub delimiter: Option<String>,
    pub encoding_type: Option<String>,
}

/// The response to a first-version object listing.
#[derive(Debug)]
pub struct ListObjectsOutput {
    pub contents: Vec<Object>,
    pub delimiter: Option<String>,
    pub encoding_type: Option<String>,
    pub name: String,
    pub prefix: Option<String>,
    pub max_keys: i32,
}

/// The rows a listing selects: the bucket's rows whose key starts with the
/// prefix and whose object file exists.
pub open spec fn visible_rows(
    objects: Seq<S3ItemDetailV>,
    files: Map<Seq<char>, Seq<u8>>,
    root: Seq<char>,
    bucket: Seq<char>,
    prefix: Seq<char>,
) -> Seq<S3ItemDetailV> {
    crate::catalog::query_capped(
        objects.filter(|v: S3ItemDetailV| v.bucket == bucket && has_prefix(v.key, prefix)),
    ).filter(
        |v: S3ItemDetailV| files.contains_key(literal_object_path(root, v.bucket, v.key)),
    )
}

impl StorageBackend {
    /// Lists the stored parts of an upload, in ascending part number order,
    /// with the stored size of each.
    pub fn list_parts(&self, input: ListPartsInput) -> (r: Result<ListPartsOutput, S3ErrorCode>)
        requires
            self.inv(),
        ensures
            ({
                let selected = crate::catalog::query_capped(
                    self.datastore.parts_view().filter(
                        |p: crate::types::MultipartUploadPartV| p.upload_id == input.upload_id@,
                    ),
                );
                &&& (r is Ok <==> selected.len() > 0)
                &&& (r is Err ==> r->Err_0 == S3ErrorCode::NoSuchUpload)
                &&& (r is Ok ==> r->Ok_0.parts.deep_view() == selected.map_values(
                    |p: crate::types::MultipartUploadPartV|
                        part_entry(p, self.spec_disk().files()),
                ) && r->Ok_0.bucket@ == input.bucket@ && r->Ok_0.key@ == input.key@
                    && r->Ok_0.upload_id@ == input.upload_id@)
            }),
    {
        let ghost ppred = |p: crate::types::MultipartUploadPartV| p.upload_id == input.upload_id@;
        let parts_in_db = self.datastore.get_parts_by_upload_id(input.upload_id.as_str());
        let ghost selected = parts_in_db.deep_view();
        if parts_in_db.len() == 0 {
            proof {
                let full = self.datastore.parts_view().filter(ppred);
                if full.len() > 0 {
                    assert(crate::catalog::query_capped(full).len() > 0);
                }
            }
            return Err(S3ErrorCode::NoSuchUpload);
        }
        proof {
            crate::catalog::lemma_filter_sorted_parts(self.datastore.parts_view(), ppred);
            let full = self.datastore.parts_view().filter(ppred);
            assert(forall|j: int|
                0 <= j < selected.len() ==> #[trigger] selected[j] == full[j]);
        }
        let n: usize = parts_in_db.len();
        let mut out: Vec<Part> = Vec::new();
        let mut i: usize = 0;
        while i < n
            invariant
                n == selected.len(),
                0 <= i <= n,
                parts_in_db.deep_view() == selected,
                self.inv(),
                forall|j: int|
                    0 <= j < selected.len() ==> self.datastore.parts_view().contains(
                        #[trigger] selected[j],
                    ),
                out.deep_view() =~= selected.subrange(0, i as int).map_values(
                    |p: crate::types::MultipartUploadPartV|
                        part_entry(p, self.spec_disk().files()),
                ),
            decreases n - i,
        {
            let ghost oldout = out.deep_view();
            let row = &parts_in_db[i];
            proof {
                assert(selected[i as int] == row@);
                assert(self.datastore.parts_view().contains(selected[i as int]));
                let w = choose|w: int|
                    0 <= w < self.datastore.parts_view().len() && self.datastore.parts_view()[w]
                        == selected[i as int];
                assert(crate::backend::part_row_inv(
                    self.root@,
                    self.spec_disk(),
                    selected[i as int],
                ));
            }
            let content = match self.read_file(row.data_location.as_str()) {
                Some(c) => c,
                None => {
                    proof {
                        assert(false);
                    }
                    return Err(S3ErrorCode::NoSuchUpload);
                },
            };
            let part = Part {
                last_modified: row.last_modified,
                part_number: row.part_number,
                size: content.len(),
                e_tag: Some(row.md5.clone()),
            };
            out.push(part);
            proof {
                assert(out.deep_view() =~= oldout.push(
                    part_entry(selected[i as int], self.spec_disk().files()),
                ));
                assert(selected.subrange(0, i + 1).drop_last() =~= selected.subrange(0, i as int));
                assert(out.deep_view() =~= selected.subrange(0, i + 1).map_values(
                    |p: crate::types::MultipartUploadPartV|
                        part_entry(p, self.spec_disk().files()),
                ));
            }
            i += 1;
        }
        proof {
            assert(selected.subrange(0, n as int) =~= selected);
        }
        Ok(
            ListPartsOutput {
                bucket: input.bucket,
                key: input.key,
                upload_id: input.upload_id,
                parts: out,
            },
        )
    }

    /// Lists the catalog's buckets whose directory still exists under the
    /// root, in ascending name order.
    pub fn list_buckets(&self, _input: ListBucketsInput) -> (r: ListBucketsOutput)
        requires
            self.inv(),
        ensures
            forall|a: int|
                0 <= a < r.buckets@.len() - 1 ==> crate::strings::lex_lt(
                    (#[trigger] r.buckets@[a]).name@,
                    r.buckets@[a + 1].name@,
                ),
            forall|i: int|
                0 <= i < r.buckets@.len() ==> self.datastore.objects_view().map_values(
                    |v: S3ItemDetailV| v.bucket,
                ).contains((#[trigger] r.buckets@[i]).name@) && self.spec_disk().spec_path_exists(
                    crate::path::spec_resolve(
                        self.root@,
                        r.buckets@[i].name@,
                    ).unwrap(),
                ),
            forall|j: int|
                0 <= j < self.datastore.objects_view().len() ==> (match crate::path::spec_resolve(
                    self.root@,
                    (#[trigger] self.datastore.objects_view()[j]).bucket,
                ) {
                    Some(p) => self.spec_disk().spec_path_exists(p) ==> (exists|a: int|
                        0 <= a < r.buckets@.len() && (#[trigger] r.buckets@[a]).name@
                            == self.datastore.objects_view()[j].bucket),
                    None => true,
                }),
    {
        let buckets_in_db = self.datastore.get_all_buckets();
        let ghost names = buckets_in_db.deep_view();
        let n: usize = buckets_in_db.len();
        let mut out: Vec<Bucket> = Vec::new();
        let mut i: usize = 0;
        while i < n
            invariant
                n == names.len(),
                0 <= i <= n,
                buckets_in_db.deep_view() == names,
                self.inv(),
                forall|a: int|
                    0 <= a < names.len() - 1 ==> crate::strings::lex_lt(
                        #[trigger] names[a],
                        names[a + 1],
                    ),
                forall|j: int|
                    0 <= j < names.len() ==> self.datastore.objects_view().map_values(
                        |v: S3ItemDetailV| v.bucket,
                    ).contains(#[trigger] names[j]),
                forall|j: int|
                    0 <= j < self.datastore.objects_view().len() ==> names.contains(
                        (#[trigger] self.datastore.objects_view()[j]).bucket,
                    ),
                forall|a: int|
                    0 <= a < out@.len() - 1 ==> crate::strings::lex_lt(
                        (#[trigger] out@[a]).name@,
                        out@[a + 1].name@,
                    ),
                out@.len() > 0 ==> exists|j: int|
                    0 <= j < i && #[trigger] names[j] == out@[out@.len() - 1].name@,
                forall|j: int|
                    0 <= j < out@.len() ==> self.datastore.objects_view().map_values(
                        |v: S3ItemDetailV| v.bucket,
                    ).contains((#[trigger] out@[j]).name@) && self.spec_disk().spec_path_exists(
                        crate::path::spec_resolve(self.root@, out@[j].name@).unwrap(),
                    ),
                forall|j: int|
                    0 <= j < i ==> (match crate::path::spec_resolve(
                        self.root@,
                        #[trigger] names[j],
                    ) {
                        Some(p) => self.spec_disk().spec_path_exists(p) ==> (exists|a: int|
                            0 <= a < out@.len() && (#[trigger] out@[a]).name@ == names[j]),
                        None => true,
                    }),
            decreases n - i,
        {
            let ghost oldout = out@;
            let name = &buckets_in_db[i];
            proof {
                assert(names[i as int] == name@);
            }
            match crate::path::resolve_abs_path(self.root.as_str(), name.as_str()) {
                Ok(p) => {
                    if self.path_exists(p.as_str()) {
                        proof {
                            if oldout.len() > 0 {
                                let j = choose|j: int|
                                    0 <= j < i && #[trigger] names[j] == oldout[oldout.len()
                                        - 1].name@;
                                lemma_names_sorted_global(names, j, i as int);
                            }
                        }
                        out.push(Bucket { name: name.clone(), creation_date: None });
                        proof {
                            assert(out@[out@.len() - 1].name@ == names[i as int]);
                            assert forall|j: int|
                                0 <= j < i + 1 implies (match crate::path::spec_resolve(
                                self.root@,
                                #[trigger] names[j],
                            ) {
                                Some(pp) => self.spec_disk().spec_path_exists(pp) ==> (exists|
                                    a: int,
                                |
                                    0 <= a < out@.len() && (#[trigger] out@[a]).name@ == names[j]),
                                None => true,
                            }) by {
                                if j < i {
                                    match crate::path::spec_resolve(self.root@, names[j]) {
                                        Some(pp) => {
                                            if self.spec_disk().spec_path_exists(pp) {
                                                let a = choose|a: int|
                                                    0 <= a < oldout.len() && (
                                                    #[trigger] oldout[a]).name@ == names[j];
                                                assert(out@[a].name@ == names[j]);
                                            }
                                        },
                                        None => {},
                                    }
                                } else {
                                    assert(out@[out@.len() - 1].name@ == names[j]);
                                }
                            }
                        }
                    }
                },
                Err(_) => {},
            }
            i += 1;
        }
        proof {
            assert forall|j: int|
                0 <= j < self.datastore.objects_view().len() implies (match crate::path::spec_resolve(
                self.root@,
                (#[trigger] self.datastore.objects_view()[j]).bucket,
            ) {
                Some(p) => self.spec_disk().spec_path_exists(p) ==> (exists|a: int|
                    0 <= a < out@.len() && (#[trigger] out@[a]).name@
                        == self.datastore.objects_view()[j].bucket),
                None => true,
            }) by {
                let b = self.datastore.objects_view()[j].bucket;
                assert(names.contains(b));
                let w = choose|w: int| 0 <= w < names.len() && names[w] == b;
            }
        }
        ListBucketsOutput { buckets: out }
    }

    /// Lists the objects of a bucket with the given key prefix, in ascending
    /// key order; an absent prefix lists the whole bucket.
    pub fn list_objects_v2(&self, input: ListObjectsV2Input) -> (r: Result<
        ListObjectsV2Output,
        S3ErrorCode,
    >)
        requires
            self.inv(),
        ensures
            ({
                let prefix = match input.prefix {
                    Some(p) => p@,
                    None => Seq::<char>::empty(),
                };
                let visible = visible_rows(
                    self.datastore.objects_view(),
                    self.spec_disk().files(),
                    self.root@,
                    input.bucket@,
                    prefix,
                );
                &&& r is Ok
                &&& r->Ok_0.contents.deep_view() == visible.map_values(
                    (|v: S3ItemDetailV| object_entry(
                        v,
                        self.spec_disk().files(),
                        self.root@,
                    )),
                )
                &&& r->Ok_0.key_count == visible.len()
                &&& r->Ok_0.max_keys == visible.len()
                &&& r->Ok_0.name@ == input.bucket@
            }),
    {
        let prefix_str: String = match input.prefix {
            Some(ref p) => p.clone(),
            None => String::new(),
        };
        let ghost prefix = prefix_str@;
        let items = self.datastore.get_s3_item_detail_with_filter(
            input.bucket.as_str(),
            prefix_str.as_str(),
        );
        let ghost matching = items.deep_view();
        let ghost fpred = |v: S3ItemDetailV| v.bucket == input.bucket@ && has_prefix(
            v.key,
            prefix,
        );
        let n: usize = items.len();
        let mut objects: Vec<Object> = Vec::new();
        let mut i: usize = 0;
        proof {
            crate::catalog::lemma_filter_sorted_objects(self.datastore.objects_view(), fpred);
            broadcast use vstd::seq_lib::group_filter_ensures;

            let full = self.datastore.objects_view().filter(fpred);
            assert(forall|j: int| 0 <= j < matching.len() ==> #[trigger] matching[j] == full[j]);
        }
        while i < n
            invariant
                n == matching.len(),
                0 <= i <= n,
                items.deep_view() == matching,
                self.inv(),
                matching == crate::catalog::query_capped(
                    self.datastore.objects_view().filter(fpred),
                ),
                fpred == (|v: S3ItemDetailV| v.bucket == input.bucket@ && has_prefix(
                    v.key,
                    prefix,
                )),
                forall|j: int|
                    0 <= j < matching.len() ==> self.datastore.objects_view().contains(
                        #[trigger] matching[j],
                    ),
                objects.deep_view() =~= matching.subrange(0, i as int).filter(
                    (|v: S3ItemDetailV| self.spec_disk().files().contains_key(
                        literal_object_path(self.root@, v.bucket, v.key),
                    )),
                ).map_values(
                    (|v: S3ItemDetailV| object_entry(v, self.spec_disk().files(), self.root@)),
                ),
            decreases n - i,
        {
            let ghost oldout = objects.deep_view();
            let ghost epred = (|v: S3ItemDetailV| self.spec_disk().files().contains_key(
                literal_object_path(self.root@, v.bucket, v.key),
            ));
            let row = &items[i];
            proof {
                reveal(Seq::filter);
                assert(matching[i as int] == row@);
                assert(self.datastore.objects_view().contains(matching[i as int]));
                let w = choose|w: int|
                    0 <= w < self.datastore.objects_view().len()
                        && self.datastore.objects_view()[w] == matching[i as int];
                assert(crate::backend::obj_row_inv(
                    self.root@,
                    self.spec_disk(),
                    matching[i as int],
                ));
                assert(matching.subrange(0, i + 1).drop_last() =~= matching.subrange(0, i as int));
                assert(matching.subrange(0, i + 1).last() == matching[i as int]);
            }
            let path = match crate::path::resolve_abs_path(
                self.root.as_str(),
                row.data_location.as_str(),
            ) {
                Ok(p) => p,
                Err(_) => {
                    proof {
                        assert(false);
                    }
                    return Err(S3ErrorCode::InternalError);
                },
            };
            match self.read_file(path.as_str()) {
                Some(content) => {
                    let obj = Object {
                        key: row.key.clone(),
                        last_modified: row.last_modified,
                        e_tag: Some(row.e_tag.clone()),
                        size: content.len(),
                    };
                    objects.push(obj);
                    proof {
                        assert(epred(matching[i as int]));
                        assert(objects.deep_view() =~= oldout.push(
                            object_entry(
                                matching[i as int],
                                self.spec_disk().files(),
                                self.root@,
                            ),
                        ));
                    }
                },
                None => {
                    proof {
                        assert(!epred(matching[i as int]));
                    }
                },
            }
            i += 1;
        }
        proof {
            assert(matching.subrange(0, n as int) =~= matching);
            let epred = (|v: S3ItemDetailV| self.spec_disk().files().contains_key(
                literal_object_path(self.root@, v.bucket, v.key),
            ));
            assert(visible_rows(
                self.datastore.objects_view(),
                self.spec_disk().files(),
                self.root@,
                input.bucket@,
                prefix,
            ) == matching.filter(epred));
            assert(matching.filter(epred).len() <= matching.len());
            assert(matching.len() <= crate::catalog::MAX_QUERY_SIZE as int);
        }
        let count = objects.len();
        if count > (i32::MAX as usize) {
            proof {
                assert(false);
            }
            return Err(S3ErrorCode::InternalError);
        }
        let key_count = count as i32;
        Ok(
            ListObjectsV2Output {
                key_count,
                max_keys: key_count,
                contents: objects,
                delimiter: input.delimiter,
                encoding_type: input.encoding_type,
                name: input.bucket,
                prefix: input.prefix,
            },
        )
    }

    /// Lists objects with the first protocol version's shape, delegating to
    /// the newer listing.
    pub fn list_objects(&self, input: ListObjectsInput) -> (r: Result<ListObjectsOutput, S3ErrorCode>)
        requires
            self.inv(),
        ensures
            ({
                let prefix = match input.prefix {
                    Some(p) => p@,
                    None => Seq::<char>::empty(),
                };
                let visible = visible_rows(
                    self.datastore.objects_view(),
                    self.spec_disk().files(),
                    self.root@,
                    input.bucket@,
                    prefix,
                );
                &&& r is Ok
                &&& r->Ok_0.contents.deep_view() == visible.map_values(
                    (|v: S3ItemDetailV| object_entry(
                        v,
                        self.spec_disk().files(),
                        self.root@,
                    )),
                )
                &&& r->Ok_0.max_keys == visible.len()
                &&& r->Ok_0.name@ == input.bucket@
            }),
    {
        let v2 = self.list_objects_v2(
            ListObjectsV2Input {
                bucket: input.bucket,
                prefix: input.prefix,
                delimiter: input.delimiter,
                encoding_type: input.encoding_type,
            },
        );
        match v2 {
            Ok(out) => Ok(
                ListObjectsOutput {
                    contents: out.contents,
                    delimiter: out.delimiter,
                    encoding_type: out.encoding_type,
                    name: out.name,
                    prefix: out.prefix,
                    max_keys: out.max_keys,
                },
            ),
            Err(code) => Err(code),
        }
    }
}

/// The literal path of an object is never a stage-file path: a separator
/// stands after the bucket.
pub proof fn lemma_object_path_not_tmp(root: Seq<char>, bucket: Seq<char>, key: Seq<char>)
    requires
        bucket.len() > 0,
    ensures
        !crate::disk::is_tmp_path(root, literal_object_path(root, bucket, key)),
{
    let p = literal_object_path(root, bucket, key);
    let tail = p.skip(root.len() as int + 1);
    assert(tail[bucket.len() as int] == '/') by {
        assert(p[root.len() as int + 1 + bucket.len() as int] == '/');
    }
    lemma_contains_single(tail, '/');
    assert(has_char(tail, '/'));
}

/// In any consistent state, the ETag of every object row whose file exists
/// is the MD5 of that file's bytes — whatever sequence of writes produced
/// the state, each of which preserves consistency.
pub proof fn law_row_etag_matches_file(b: &StorageBackend, i: int)
    requires
        b.inv(),
        0 <= i < b.datastore.objects_view().len(),
        b.spec_disk().files().contains_key(
            literal_object_path(
                b.root@,
                b.datastore.objects_view()[i].bucket,
                b.datastore.objects_view()[i].key,
            ),
        ),
    ensures
        spec_etag(
            b.spec_disk().files()[literal_object_path(
                b.root@,
                b.datastore.objects_view()[i].bucket,
                b.datastore.objects_view()[i].key,
            )],
        ) == b.datastore.objects_view()[i].e_tag,
{
    assert(crate::backend::obj_row_inv(b.root@, b.spec_disk(), b.datastore.objects_view()[i]));
}

/// The startup sweep of stage files never removes an object's file: after
/// removing every stage file, a row that referenced an existing file still
/// does.
pub proof fn law_sweep_preserves_object_files(
    pre: Disk,
    post: Disk,
    root: Seq<char>,
    bucket: Seq<char>,
    key: Seq<char>,
)
    requires
        bucket.len() > 0,
        forall|p: Seq<char>|
            #[trigger] post.files().contains_key(p) <==> pre.files().contains_key(p)
                && !crate::disk::is_tmp_path(root, p),
        pre.files().contains_key(literal_object_path(root, bucket, key)),
    ensures
        post.files().contains_key(literal_object_path(root, bucket, key)),
{
    lemma_object_path_not_tmp(root, bucket, key);
}


} // verus!
