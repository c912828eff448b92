use vstd::prelude::*;

use crate::catalog::{lookup_upload, Catalog};
use crate::disk::{Disk, FileWriter};
use crate::error::Error;
use crate::hash::{md5_hex, spec_etag};
use crate::json::{json_object, metadata_to_string};
use crate::path::{resolve_abs_path, spec_resolve, valid_key_seq, validate_s3_key};
use crate::strings::{contains_seq, dec_str, has_prefix, push_str, u64_to_dec};
use crate::strmap::StrMap;
use crate::types::{Credentials, MultipartUploadPartV, MultipartUploadV, S3ItemDetail, S3ItemDetailV};

verus! {

/// Whether the textual form of a UUID parses. Delegated to the uuid crate.
pub uninterp spec fn uuid_parse_ok(s: Seq<char>) -> bool;

/// The hyphenated lowercase form of a textual UUID. Delegated to the uuid
/// crate; a function of the input alone.
pub uninterp spec fn uuid_normal_of(s: Seq<char>) -> Seq<char>;

/// Relies on uuid::Uuid::parse_str and Uuid::to_string: accepts exactly the
/// textual UUID forms, and renders the hyphenated lowercase form, which is 36
/// characters of hexadecimal digits and hyphens.
#[verifier::external_body]
pub fn normalize_uuid(s: &str) -> (r: Option<String>)
    ensures
        r is Some <==> uuid_parse_ok(s@),
        match r {
            Some(t) => {
                &&& t@ == uuid_normal_of(s@)
                &&& t@.len() == 36
                &&& !contains_seq(t@, seq!['/'])
                &&& !contains_seq(t@, seq!['.'])
            },
            None => true,
        },
{
    match uuid::Uuid::parse_str(s) {
        Ok(u) => Some(u.to_string()),
        Err(_) => None,
    }
}

/// Relies on uuid::Uuid::new_v4 and Uuid::to_string: a fresh version-4 UUID
/// in hyphenated lowercase form. The value is random; only its shape and
/// that it is already in normal form are stated.
#[verifier::external_body]
pub fn new_upload_id() -> (r: String)
    ensures
        uuid_parse_ok(r@),
        uuid_normal_of(r@) == r@,
        r@.len() == 36,
        !contains_seq(r@, seq!['/']),
        !contains_seq(r@, seq!['.']),
{
    uuid::Uuid::new_v4().to_string()
}

/// The absolute path of an object: root, bucket and key joined by
/// separators.
pub open spec fn literal_object_path(root: Seq<char>, bucket: Seq<char>, key: Seq<char>) -> Seq<
    char,
> {
    root + seq!['/'] + bucket + seq!['/'] + key
}

/// The decimal form of a part number, with a sign for negative values.
pub open spec fn spec_i32_dec(n: int) -> Seq<char> {
    if n < 0 {
        seq!['-'] + dec_str((-n) as nat)
    } else {
        dec_str(n as nat)
    }
}

/// The absolute path of one stored part file.
pub open spec fn spec_part_path(root: Seq<char>, upload_id: Seq<char>, n: int) -> Seq<char> {
    root + "/.upload_id-"@ + upload_id + ".part-"@ + spec_i32_dec(n)
}

/// Whether a bucket name can stand as one path component.
pub open spec fn valid_bucket(b: Seq<char>) -> bool {
    b.len() > 0 && !contains_seq(b, seq!['/'])
}

/// One object row is consistent with the disk: its location is the joined
/// bucket and key, which resolves literally, and if a file stands there its
/// MD5 is the row's ETag.
pub open spec fn obj_row_inv(root: Seq<char>, disk: Disk, r: S3ItemDetailV) -> bool {
    &&& r.data_location == r.bucket + seq!['/'] + r.key
    &&& valid_bucket(r.bucket)
    &&& valid_key_seq(r.key)
    &&& spec_resolve(root, r.bucket + seq!['/'] + r.key) == Some(
        literal_object_path(root, r.bucket, r.key),
    )
    &&& disk.files().contains_key(literal_object_path(root, r.bucket, r.key)) ==> spec_etag(
        disk.files()[literal_object_path(root, r.bucket, r.key)],
    ) == r.e_tag
}

/// One upload row is consistent: its ID has the UUID shape. The destination
/// bucket and key are whatever the initiating request carried; completion
/// validates them before it writes.
pub open spec fn upload_row_inv(root: Seq<char>, u: MultipartUploadV) -> bool {
    &&& u.upload_id.len() == 36
    &&& !contains_seq(u.upload_id, seq!['/'])
    &&& !contains_seq(u.upload_id, seq!['.'])
}

/// One part row is consistent: its ID has the UUID shape, its location is
/// the conventional part path, and the part file exists.
pub open spec fn part_row_inv(root: Seq<char>, disk: Disk, p: MultipartUploadPartV) -> bool {
    &&& p.upload_id.len() == 36
    &&& !contains_seq(p.upload_id, seq!['/'])
    &&& !contains_seq(p.upload_id, seq!['.'])
    &&& p.data_location == spec_part_path(root, p.upload_id, p.part_number)
    &&& disk.files().contains_key(p.data_location)
}

/// Whether a path lies directly under the root and uses the part-file naming
/// convention.
pub open spec fn is_part_path(root: Seq<char>, p: Seq<char>) -> bool {
    has_prefix(p, root + "/.upload_id-"@) && !contains_seq(p.skip(root.len() as int + 1), seq!['/'])
}

/// The storage backend: the custodian of the join invariant between the
/// catalog and the files under the root directory.
pub struct StorageBackend {
    /// The root directory all paths resolve under.
    pub root: String,
    /// The counter naming stage files; monotonic within one process.
    pub tmp_file_counter: u64,
    /// The state of the root directory.
    pub disk: Disk,
    /// The metadata catalog.
    pub datastore: Catalog,
}

impl StorageBackend {
    /// The state of the root directory.
    pub open spec fn spec_disk(&self) -> Disk {
        self.disk
    }

    /// The system invariant: catalog tables well formed, file paths unique,
    /// every row consistent with the disk, and every part-named file tracked
    /// by a part row.
    pub open spec fn inv(&self) -> bool {
        &&& self.datastore.wf()
        &&& self.spec_disk().wf()
        &&& forall|i: int|
            0 <= i < self.datastore.objects_view().len() ==> obj_row_inv(
                self.root@,
                self.spec_disk(),
                #[trigger] self.datastore.objects_view()[i],
            )
        &&& forall|i: int|
            0 <= i < self.datastore.uploads_view().len() ==> upload_row_inv(
                self.root@,
                #[trigger] self.datastore.uploads_view()[i],
            )
        &&& forall|i: int|
            0 <= i < self.datastore.parts_view().len() ==> part_row_inv(
                self.root@,
                self.spec_disk(),
                #[trigger] self.datastore.parts_view()[i],
            )
        &&& forall|p: Seq<char>|
            #[trigger] self.spec_disk().files().contains_key(p) && is_part_path(self.root@, p)
                ==> exists|i: int|
                0 <= i < self.datastore.parts_view().len() && (
                #[trigger] self.datastore.parts_view()[i]).data_location == p
    }

    /// Builds a backend over whatever state survived: the catalog rows and
    /// the root directory's files, which committed writes left consistent.
    /// Startup removes leftover stage files and nothing else.
    pub fn new(root: String, datastore: Catalog, disk: Disk) -> (r: StorageBackend)
        requires
            datastore.wf(),
            disk.wf(),
            forall|i: int|
                0 <= i < datastore.objects_view().len() ==> obj_row_inv(
                    root@,
                    disk,
                    #[trigger] datastore.objects_view()[i],
                ),
            forall|i: int|
                0 <= i < datastore.uploads_view().len() ==> upload_row_inv(
                    root@,
                    #[trigger] datastore.uploads_view()[i],
                ),
            forall|i: int|
                0 <= i < datastore.parts_view().len() ==> part_row_inv(
                    root@,
                    disk,
                    #[trigger] datastore.parts_view()[i],
                ),
            forall|p: Seq<char>|
                #[trigger] disk.files().contains_key(p) && is_part_path(root@, p) ==> exists|i: int|
                    0 <= i < datastore.parts_view().len() && (
                    #[trigger] datastore.parts_view()[i]).data_location == p,
        ensures
            r.inv(),
            r.root@ == root@,
            r.tmp_file_counter == 0,
            r.datastore == datastore,
            forall|p: Seq<char>|
                #[trigger] r.spec_disk().files().contains_key(p) <==> disk.files().contains_key(p)
                    && !crate::disk::is_tmp_path(root@, p),
            forall|p: Seq<char>|
                r.spec_disk().files().contains_key(p) ==> #[trigger] r.spec_disk().files()[p]
                    == disk.files()[p],
            r.spec_disk().dirs() == disk.dirs(),
    {
        let ghost pre = disk;
        let mut disk = disk;
        disk.sweep_tmp_files(root.as_str());
        let r = StorageBackend { root, tmp_file_counter: 0, disk, datastore };
        proof {
            assert forall|i: int|
                0 <= i < r.datastore.objects_view().len() implies obj_row_inv(
                r.root@,
                r.spec_disk(),
                #[trigger] r.datastore.objects_view()[i],
            ) by {
                let v = r.datastore.objects_view()[i];
                assert(obj_row_inv(r.root@, pre, v));
                let lit = literal_object_path(r.root@, v.bucket, v.key);
                if r.spec_disk().files().contains_key(lit) {
                    assert(pre.files().contains_key(lit));
                    assert(r.spec_disk().files()[lit] == pre.files()[lit]);
                }
            }
            assert forall|i: int|
                0 <= i < r.datastore.parts_view().len() implies part_row_inv(
                r.root@,
                r.spec_disk(),
                #[trigger] r.datastore.parts_view()[i],
            ) by {
                let v = r.datastore.parts_view()[i];
                assert(part_row_inv(r.root@, pre, v));
                lemma_part_path_not_tmp(r.root@, v.upload_id, v.part_number);
                assert(!crate::disk::is_tmp_path(r.root@, v.data_location));
                assert(r.spec_disk().files().contains_key(v.data_location));
            }
            assert forall|p: Seq<char>|
                #[trigger] r.spec_disk().files().contains_key(p) && is_part_path(r.root@, p)
                    implies exists|i: int|
                    0 <= i < r.datastore.parts_view().len() && (
                    #[trigger] r.datastore.parts_view()[i]).data_location == p by {
                assert(pre.files().contains_key(p));
            }
        }
        r
    }

    /// Validates an S3 key: length bounds, no path traversal sequences, no
    /// control characters.
    pub fn validate_s3_key(&self, key: &str) -> (r: bool)
        ensures
            r == valid_key_seq(key@),
    {
        validate_s3_key(key)
    }

    /// The resolved path of an object under the root.
    pub fn get_object_path(&self, bucket: &str, key: &str) -> (r: Result<String, Error>)
        ensures
            match r {
                Ok(p) => spec_resolve(self.root@, bucket@ + seq!['/'] + key@) == Some(p@),
                Err(_) => spec_resolve(self.root@, bucket@ + seq!['/'] + key@) is None,
            },
    {
        let mut rel: String = bucket.to_owned();
        push_str(&mut rel, "/");
        push_str(&mut rel, key);
        proof {
            reveal_strlit("/");
            assert(rel@ =~= bucket@ + seq!['/'] + key@);
        }
        resolve_abs_path(self.root.as_str(), rel.as_str())
    }

    /// The resolved path of a bucket directory under the root.
    pub fn get_bucket_path(&self, bucket: &str) -> (r: Result<String, Error>)
        ensures
            match r {
                Ok(p) => spec_resolve(self.root@, bucket@) == Some(p@),
                Err(_) => spec_resolve(self.root@, bucket@) is None,
            },
    {
        resolve_abs_path(self.root.as_str(), bucket)
    }

    /// The conventional path of one part file of an upload.
    pub fn resolve_upload_part_path(&self, upload_id: &str, part_number: i32) -> (r: String)
        ensures
            r@ == spec_part_path(self.root@, upload_id@, part_number as int),
    {
        let mut out: String = self.root.clone();
        push_str(&mut out, "/.upload_id-");
        push_str(&mut out, upload_id);
        push_str(&mut out, ".part-");
        let digits = i32_to_dec(part_number);
        push_str(&mut out, digits.as_str());
        proof {
            assert(out@ =~= spec_part_path(self.root@, upload_id@, part_number as int));
        }
        out
    }

    /// The stage file path of one write, from the shared counter.
    fn next_tmp_path(&mut self) -> (r: String)
        ensures
            final(self).root@ == old(self).root@,
            final(self).disk == old(self).disk,
            final(self).datastore == old(self).datastore,
            r@ == old(self).root@ + "/.tmp."@ + dec_str(old(self).tmp_file_counter as nat)
                + ".internal.part"@,
            old(self).tmp_file_counter < u64::MAX ==> final(self).tmp_file_counter == old(
                self,
            ).tmp_file_counter + 1,
    {
        let c = self.tmp_file_counter;
        self.tmp_file_counter = self.tmp_file_counter.wrapping_add(1);
        let mut out: String = self.root.clone();
        push_str(&mut out, "/.tmp.");
        let digits = u64_to_dec(c);
        push_str(&mut out, digits.as_str());
        push_str(&mut out, ".internal.part");
        out
    }

    /// Opens an atomic writer bound to a destination path. Its stage file
    /// name comes from the shared counter, so successive writers of one
    /// backend use distinct stage paths.
    pub fn prepare_file_write(&mut self, path: String) -> (r: FileWriter)
        ensures
            final(self).root@ == old(self).root@,
            final(self).disk == old(self).disk,
            final(self).datastore == old(self).datastore,
            r.staged() == Seq::<u8>::empty(),
            r.spec_dest_path() == path@,
            r.spec_tmp_path() == old(self).root@ + "/.tmp."@ + dec_str(
                old(self).tmp_file_counter as nat,
            ) + ".internal.part"@,
            old(self).tmp_file_counter < u64::MAX ==> final(self).tmp_file_counter == old(
                self,
            ).tmp_file_counter + 1,
    {
        let tmp = self.next_tmp_path();
        FileWriter::open(tmp, path)
    }

    /// Commits a writer into this backend's root directory.
    pub fn commit_file_write(&mut self, w: FileWriter)
        requires
            old(self).spec_disk().wf(),
        ensures
            final(self).root@ == old(self).root@,
            final(self).datastore == old(self).datastore,
            final(self).spec_disk().wf(),
            final(self).spec_disk().dirs() == old(self).spec_disk().dirs(),
            old(self).spec_disk().spec_dir_exists(w.spec_dest_path())
                ==> final(self).spec_disk().files() == old(self).spec_disk().files(),
            !old(self).spec_disk().spec_dir_exists(w.spec_dest_path())
                ==> final(self).spec_disk().files() == old(self).spec_disk().files().insert(
                w.spec_dest_path(),
                w.staged(),
            ),
    {
        w.done(&mut self.disk);
    }

    /// Reads a file under the root.
    pub fn read_file(&self, path: &str) -> (r: Option<&Vec<u8>>)
        requires
            self.spec_disk().wf(),
        ensures
            match r {
                Some(data) => self.spec_disk().files().contains_key(path@) && self.spec_disk(
                ).files()[path@] == data@,
                None => !self.spec_disk().files().contains_key(path@),
            },
    {
        self.disk.read(path)
    }

    /// Whether a directory exists at a path under the root.
    pub fn dir_exists(&self, d: &str) -> (r: bool)
        requires
            self.spec_disk().wf(),
        ensures
            r == self.spec_disk().spec_dir_exists(d@),
    {
        self.disk.dir_exists(d)
    }

    /// Whether a regular file exists at a path under the root.
    pub fn file_exists(&self, p: &str) -> (r: bool)
        requires
            self.spec_disk().wf(),
        ensures
            r == self.spec_disk().files().contains_key(p@),
    {
        self.disk.file_exists(p)
    }

    /// Whether anything exists at a path under the root.
    pub fn path_exists(&self, p: &str) -> (r: bool)
        requires
            self.spec_disk().wf(),
        ensures
            r == self.spec_disk().spec_path_exists(p@),
    {
        self.disk.path_exists(p)
    }

    /// Records a directory as created.
    pub fn create_dir(&mut self, path: String)
        requires
            old(self).spec_disk().wf(),
        ensures
            final(self).root@ == old(self).root@,
            final(self).datastore == old(self).datastore,
            final(self).spec_disk().wf(),
            final(self).spec_disk().files() == old(self).spec_disk().files(),
            final(self).spec_disk().dirs() == old(self).spec_disk().dirs().push(path@),
    {
        self.disk.create_dir_all(path);
    }

    /// Removes a file under the root.
    pub fn remove_file(&mut self, path: &str)
        requires
            old(self).spec_disk().wf(),
        ensures
            final(self).root@ == old(self).root@,
            final(self).datastore == old(self).datastore,
            final(self).spec_disk().wf(),
            final(self).spec_disk().files() == old(self).spec_disk().files().remove(path@),
            final(self).spec_disk().dirs() == old(self).spec_disk().dirs(),
    {
        self.disk.remove_file(path);
    }

    /// The hex MD5 of the file stored for an object.
    pub fn get_md5_sum(&self, bucket: &str, key: &str) -> (r: Result<String, Error>)
        requires
            self.spec_disk().wf(),
        ensures
            match r {
                Ok(m) => {
                    &&& spec_resolve(self.root@, bucket@ + seq!['/'] + key@) is Some
                    &&& self.spec_disk().files().contains_key(
                        spec_resolve(self.root@, bucket@ + seq!['/'] + key@).unwrap(),
                    )
                    &&& m@ == spec_etag(
                        self.spec_disk().files()[spec_resolve(
                            self.root@,
                            bucket@ + seq!['/'] + key@,
                        ).unwrap()],
                    )
                },
                Err(_) => spec_resolve(self.root@, bucket@ + seq!['/'] + key@) is None
                    || !self.spec_disk().files().contains_key(
                    spec_resolve(self.root@, bucket@ + seq!['/'] + key@).unwrap(),
                ),
            },
    {
        let object_path = match self.get_object_path(bucket, key) {
            Ok(p) => p,
            Err(e) => {
                return Err(e);
            },
        };
        match self.disk.read(object_path.as_str()) {
            Some(data) => Ok(md5_hex(data.as_slice())),
            None => Err(Error::from_string(new_string("object file is missing"))),
        }
    }

    /// The access key of a request, or the empty string where none came.
    pub fn access_key_or_empty(cred: Option<&Credentials>) -> (r: String)
        ensures
            r@ == spec_access_of(cred),
    {
        match cred {
            Some(c) => c.access_key.clone(),
            None => String::new(),
        }
    }

    /// Whether the request's access key owns the upload: the upload exists
    /// and was created with the same key.
    pub fn verify_access_key_by_upload_id(
        &self,
        cred: Option<&Credentials>,
        upload_id: &str,
    ) -> (r: Result<bool, Error>)
        ensures
            r is Ok,
            r->Ok_0 == spec_access_granted(self.datastore.uploads_view(), cred, upload_id@),
    {
        let access_key = self.datastore.get_access_key_by_upload_id(upload_id);
        match access_key {
            Some(ak) => {
                let request_key = Self::access_key_or_empty(cred);
                Ok(crate::strings::str_eq(ak.as_str(), request_key.as_str()))
            },
            None => Ok(false),
        }
    }
}

/// The value of an object row as `save_s3_item_detail` writes it.
pub open spec fn saved_row(
    bucket: Seq<char>,
    key: Seq<char>,
    e_tag: Seq<char>,
    metadata: Option<Seq<(Seq<char>, Seq<char>)>>,
    internal_info: Seq<(Seq<char>, Seq<char>)>,
    now: int,
) -> S3ItemDetailV {
    S3ItemDetailV {
        bucket: bucket,
        key: key,
        e_tag: e_tag,
        last_modified: now,
        data_location: bucket + seq!['/'] + key,
        metadata: match metadata {
            Some(m) => json_object(m),
            None => json_object(Seq::<(Seq<char>, Seq<char>)>::empty()),
        },
        internal_info: json_object(internal_info),
    }
}

/// Whether an object coordinate is storable: a sound bucket name, a valid
/// key, and a literal resolution under the root.
pub open spec fn storable(root: Seq<char>, bucket: Seq<char>, key: Seq<char>) -> bool {
    &&& valid_bucket(bucket)
    &&& valid_key_seq(key)
    &&& spec_resolve(root, bucket + seq!['/'] + key) == Some(literal_object_path(root, bucket, key))
}

impl StorageBackend {
    /// Checks that an object coordinate is storable.
    pub fn check_storable(&self, bucket: &str, key: &str) -> (r: bool)
        ensures
            r == storable(self.root@, bucket@, key@),
    {
        if bucket.is_empty() || crate::strings::str_contains(bucket, "/") {
            proof {
                reveal_strlit("/");
                if crate::strings::contains_seq(bucket@, "/"@) {
                    let w = choose|w: int| crate::strings::occurs_at(bucket@, "/"@, w);
                    assert(bucket@.subrange(w, w + 1)[0] == '/');
                    assert(crate::strings::occurs_at(bucket@, seq!['/'], w)) by {
                        assert(bucket@.subrange(w, w + 1) =~= seq!['/']);
                    }
                }
            }
            return false;
        }
        proof {
            reveal_strlit("/");
            if crate::strings::contains_seq(bucket@, seq!['/']) {
                let w = choose|w: int| crate::strings::occurs_at(bucket@, seq!['/'], w);
                assert(crate::strings::occurs_at(bucket@, "/"@, w)) by {
                    assert(bucket@.subrange(w, w + 1) =~= "/"@);
                }
            }
        }
        if !validate_s3_key(key) {
            return false;
        }
        let resolved = match self.get_object_path(bucket, key) {
            Ok(p) => p,
            Err(_) => {
                return false;
            },
        };
        let mut literal: String = self.root.clone();
        push_str(&mut literal, "/");
        push_str(&mut literal, bucket);
        push_str(&mut literal, "/");
        push_str(&mut literal, key);
        proof {
            reveal_strlit("/");
            assert(literal@ =~= literal_object_path(self.root@, bucket@, key@));
        }
        crate::strings::str_eq(resolved.as_str(), literal.as_str())
    }

    /// Writes or replaces the catalog row of an object, stamping the time.
    pub fn save_s3_item_detail(
        &mut self,
        bucket: &str,
        key: &str,
        e_tag: &str,
        metadata: Option<&StrMap>,
        internal_info: &StrMap,
        now: i64,
    ) -> (r: Result<(), Error>)
        requires
            old(self).datastore.wf(),
        ensures
            final(self).datastore.wf(),
            final(self).root@ == old(self).root@,
            final(self).spec_disk() == old(self).spec_disk(),
            final(self).datastore.uploads_view() == old(self).datastore.uploads_view(),
            final(self).datastore.parts_view() == old(self).datastore.parts_view(),
            r is Ok <==> storable(old(self).root@, bucket@, key@),
            r is Ok ==> final(self).datastore.objects_view() == crate::catalog::upsert_obj(
                old(self).datastore.objects_view(),
                saved_row(
                    bucket@,
                    key@,
                    e_tag@,
                    match metadata {
                        Some(m) => Some(m@),
                        None => None,
                    },
                    internal_info@,
                    now as int,
                ),
            ),
            r is Err ==> final(self).datastore.objects_view() == old(
                self,
            ).datastore.objects_view(),
    {
        if !self.check_storable(bucket, key) {
            return Err(Error::from_string(new_string("Invalid S3 key format")));
        }
        let internal_info_str = crate::json::internal_info_to_string(internal_info);
        let metadata_str = metadata_to_string(metadata);
        let mut path: String = bucket.to_owned();
        push_str(&mut path, "/");
        push_str(&mut path, key);
        proof {
            reveal_strlit("/");
            assert(path@ =~= bucket@ + seq!['/'] + key@);
        }
        let item = S3ItemDetail::builder()
            .bucket(bucket.to_owned())
            .key(key.to_owned())
            .e_tag(e_tag.to_owned())
            .metadata(Some(metadata_str))
            .internal_info(Some(internal_info_str))
            .data_location(path)
            .build();
        let ghost row = saved_row(
            bucket@,
            key@,
            e_tag@,
            match metadata {
                Some(m) => Some(m@),
                None => None,
            },
            internal_info@,
            now as int,
        );
        self.datastore.save_s3_item_detail(item, now);
        Ok(())
    }

    /// Creates a directory object: rejects a request body, then records the
    /// directory.
    pub fn handle_directory_creation(
        &mut self,
        content_length: Option<i64>,
        bucket: &str,
        key: &str,
    ) -> (r: Result<(), crate::error::S3ErrorCode>)
        requires
            old(self).inv(),
        ensures
            final(self).inv(),
            final(self).root@ == old(self).root@,
            final(self).datastore == old(self).datastore,
            final(self).spec_disk().files() == old(self).spec_disk().files(),
            r is Ok <==> !(match content_length {
                Some(l) => l > 0,
                None => false,
            }) && spec_resolve(old(self).root@, bucket@ + seq!['/'] + key@) is Some,
            r is Err ==> final(self).spec_disk() == old(self).spec_disk() && (r->Err_0
                == crate::error::S3ErrorCode::UnexpectedContent || r->Err_0
                == crate::error::S3ErrorCode::InvalidRequest),
            r is Err && (match content_length {
                Some(l) => l > 0,
                None => false,
            }) ==> r->Err_0 == crate::error::S3ErrorCode::UnexpectedContent,
            r is Err && !(match content_length {
                Some(l) => l > 0,
                None => false,
            }) ==> r->Err_0 == crate::error::S3ErrorCode::InvalidRequest,
            r is Ok ==> final(self).spec_disk().dirs() == old(self).spec_disk().dirs().push(
                spec_resolve(old(self).root@, bucket@ + seq!['/'] + key@).unwrap(),
            ),
    {
        let too_long = match content_length {
            Some(l) => l > 0,
            None => false,
        };
        if too_long {
            return Err(crate::error::S3ErrorCode::UnexpectedContent);
        }
        let object_path = match self.get_object_path(bucket, key) {
            Ok(p) => p,
            Err(_) => {
                return Err(crate::error::S3ErrorCode::InvalidRequest);
            },
        };
        self.create_dir(object_path);
        proof {
            assert forall|p: Seq<char>|
                #[trigger] self.spec_disk().files().contains_key(p) && is_part_path(self.root@, p)
                    implies exists|i: int|
                    0 <= i < self.datastore.parts_view().len() && (
                    #[trigger] self.datastore.parts_view()[i]).data_location == p by {
                assert(old(self).spec_disk().files().contains_key(p));
            }
        }
        Ok(())
    }
}


impl StorageBackend {
    /// Registers an in-flight multipart upload, stamping the time.
    pub fn save_multipart_upload(
        &mut self,
        upload_id: &str,
        bucket: &str,
        key: &str,
        metadata: &str,
        access_key: &str,
        now: i64,
    )
        requires
            old(self).datastore.wf(),
        ensures
            final(self).datastore.wf(),
            final(self).root@ == old(self).root@,
            final(self).spec_disk() == old(self).spec_disk(),
            final(self).datastore.objects_view() == old(self).datastore.objects_view(),
            final(self).datastore.parts_view() == old(self).datastore.parts_view(),
            lookup_upload(final(self).datastore.uploads_view(), upload_id@) == Some(
                crate::types::MultipartUploadV {
                    upload_id: upload_id@,
                    bucket: bucket@,
                    key: key@,
                    metadata: metadata@,
                    last_modified: now as int,
                    access_key: access_key@,
                },
            ),
            forall|u2: Seq<char>|
                u2 != upload_id@ ==> #[trigger] lookup_upload(
                    final(self).datastore.uploads_view(),
                    u2,
                ) == lookup_upload(old(self).datastore.uploads_view(), u2),
            forall|i: int|
                0 <= i < final(self).datastore.uploads_view().len()
                    ==> #[trigger] final(self).datastore.uploads_view()[i]
                    == (crate::types::MultipartUploadV {
                    upload_id: upload_id@,
                    bucket: bucket@,
                    key: key@,
                    metadata: metadata@,
                    last_modified: now as int,
                    access_key: access_key@,
                }) || old(self).datastore.uploads_view().contains(
                    final(self).datastore.uploads_view()[i],
                ),
    {
        let upload = crate::types::MultipartUpload::builder()
            .upload_id(upload_id.to_owned())
            .bucket(bucket.to_owned())
            .key(key.to_owned())
            .metadata(metadata.to_owned())
            .access_key(access_key.to_owned())
            .build();
        self.datastore.save_multipart_upload(upload, now);
    }

    /// Registers one stored part of an upload, stamping the time.
    pub fn save_multipart_upload_part(
        &mut self,
        upload_id: &str,
        part_number: i32,
        md5: &str,
        data_location: &str,
        now: i64,
    )
        requires
            old(self).datastore.wf(),
        ensures
            final(self).datastore.wf(),
            final(self).root@ == old(self).root@,
            final(self).spec_disk() == old(self).spec_disk(),
            final(self).datastore.objects_view() == old(self).datastore.objects_view(),
            final(self).datastore.uploads_view() == old(self).datastore.uploads_view(),
            final(self).datastore.parts_view() == crate::catalog::upsert_part(
                old(self).datastore.parts_view(),
                crate::types::MultipartUploadPartV {
                    upload_id: upload_id@,
                    part_number: part_number as int,
                    last_modified: now as int,
                    md5: md5@,
                    data_location: data_location@,
                },
            ),
    {
        let part = crate::types::MultipartUploadPart::builder()
            .upload_id(upload_id.to_owned())
            .part_number(part_number)
            .md5(md5.to_owned())
            .data_location(data_location.to_owned())
            .build();
        self.datastore.save_multipart_upload_part(part, now);
    }
}


/// Distinct objects live at distinct literal paths, because the bucket is
/// one separator-free component.
pub proof fn lemma_literal_path_injective(
    root: Seq<char>,
    b1: Seq<char>,
    k1: Seq<char>,
    b2: Seq<char>,
    k2: Seq<char>,
)
    requires
        valid_bucket(b1),
        valid_bucket(b2),
        literal_object_path(root, b1, k1) == literal_object_path(root, b2, k2),
    ensures
        b1 == b2,
        k1 == k2,
{
    let p1 = literal_object_path(root, b1, k1);
    let p2 = literal_object_path(root, b2, k2);
    crate::s3::lemma_contains_single(b1, '/');
    crate::s3::lemma_contains_single(b2, '/');
    if b1.len() < b2.len() {
        assert(p1[root.len() as int + 1 + b1.len() as int] == '/');
        assert(p2[root.len() as int + 1 + b1.len() as int] == b2[b1.len() as int]);
        assert(false);
    }
    if b2.len() < b1.len() {
        assert(p2[root.len() as int + 1 + b2.len() as int] == '/');
        assert(p1[root.len() as int + 1 + b2.len() as int] == b1[b2.len() as int]);
        assert(false);
    }
    assert(b1 =~= b2) by {
        assert forall|j: int| 0 <= j < b1.len() implies b1[j] == b2[j] by {
            assert(p1[root.len() as int + 1 + j] == b1[j]);
            assert(p2[root.len() as int + 1 + j] == b2[j]);
        }
    }
    assert(k1 =~= k2) by {
        assert(p1.len() == root.len() + 2 + b1.len() + k1.len());
        assert(p2.len() == root.len() + 2 + b2.len() + k2.len());
        assert(k1.len() == k2.len());
        assert forall|j: int| 0 <= j < k1.len() implies k1[j] == k2[j] by {
            assert(p1[root.len() as int + 2 + b1.len() as int + j] == k1[j]);
            assert(p2[root.len() as int + 2 + b2.len() as int + j] == k2[j]);
        }
    }
}

/// A part path is never a stage-file path: the names differ right after the
/// root.
pub proof fn lemma_part_path_not_tmp(root: Seq<char>, u: Seq<char>, n: int)
    ensures
        !crate::disk::is_tmp_path(root, spec_part_path(root, u, n)),
{
    reveal_strlit("/.upload_id-");
    reveal_strlit("/.tmp.");
    let p = spec_part_path(root, u, n);
    if has_prefix(p, root + "/.tmp."@) {
        assert(p.subrange(0, root.len() as int + 6)[root.len() as int + 2] == (root + "/.tmp."@)[
            root.len() as int + 2]);
        assert(p[root.len() as int + 2] == "/.upload_id-"@[2]);
        assert(false);
    }
}

/// The access key a request carries, the empty string where none came.
pub open spec fn spec_access_of(cred: Option<&Credentials>) -> Seq<char> {
    match cred {
        Some(c) => c.access_key@,
        None => Seq::<char>::empty(),
    }
}

/// Whether an upload exists and is owned by the request's access key.
pub open spec fn spec_access_granted(
    uploads: Seq<MultipartUploadV>,
    cred: Option<&Credentials>,
    upload_id: Seq<char>,
) -> bool {
    match lookup_upload(uploads, upload_id) {
        Some(u) => u.access_key == spec_access_of(cred),
        None => false,
    }
}

/// Formats a part number in decimal, with a sign for negative values.
pub fn i32_to_dec(n: i32) -> (r: String)
    ensures
        r@ == spec_i32_dec(n as int),
{
    if n < 0 {
        let mut out: String = String::new();
        crate::strings::string_push(&mut out, '-');
        let wide: i64 = n as i64;
        let mag: u64 = (-wide) as u64;
        let digits = u64_to_dec(mag);
        push_str(&mut out, digits.as_str());
        proof {
            assert(out@ =~= seq!['-'] + dec_str((-(n as int)) as nat));
        }
        out
    } else {
        u64_to_dec(n as u64)
    }
}

/// Makes an owned string from a literal.
fn new_string(s: &str) -> (r: String)
    ensures
        r@ == s@,
{
    s.to_owned()
}

} // verus!
