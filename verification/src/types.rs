use vstd::prelude::*;

verus! {

/// Ghost value of one object row.
pub ghost struct S3ItemDetailV {
    pub bucket: Seq<char>,
    pub key: Seq<char>,
    pub e_tag: Seq<char>,
    pub last_modified: int,
    pub data_location: Seq<char>,
    pub metadata: Seq<char>,
    pub internal_info: Seq<char>,
}

/// One object row of the catalog: identity `(bucket, key)`, the ETag of the
/// stored body, the relative location of the data file, and the serialized
/// metadata and checksum set.
#[derive(Debug, Clone)]
pub struct S3ItemDetail {
    pub bucket: String,
    pub key: String,
    pub e_tag: String,
    pub last_modified: i64,
    pub data_location: String,
    pub metadata: String,
    pub internal_info: String,
}

impl DeepView for S3ItemDetail {
    type V = S3ItemDetailV;

    open spec fn deep_view(&self) -> S3ItemDetailV {
        self.view()
    }
}

impl View for S3ItemDetail {
    type V = S3ItemDetailV;

    open spec fn view(&self) -> S3ItemDetailV {
        S3ItemDetailV {
            bucket: self.bucket@,
            key: self.key@,
            e_tag: self.e_tag@,
            last_modified: self.last_modified as int,
            data_location: self.data_location@,
            metadata: self.metadata@,
            internal_info: self.internal_info@,
        }
    }
}

/// Builder for [`S3ItemDetail`]. Each field must be set before `build`.
#[derive(Debug)]
pub struct S3ItemDetailBuilder {
    bucket: Option<String>,
    key: Option<String>,
    e_tag: Option<String>,
    last_modified: Option<i64>,
    data_location: Option<String>,
    metadata: Option<String>,
    internal_info: Option<String>,
}

impl S3ItemDetail {
    /// An owned copy of this row.
    pub fn clone_row(&self) -> (r: Self)
        ensures
            r@ == self@,
    {
        S3ItemDetail {
            bucket: self.bucket.clone(),
            key: self.key.clone(),
            e_tag: self.e_tag.clone(),
            last_modified: self.last_modified,
            data_location: self.data_location.clone(),
            metadata: self.metadata.clone(),
            internal_info: self.internal_info.clone(),
        }
    }

    /// Starts a builder with no field set.
    pub fn builder() -> (r: S3ItemDetailBuilder)
        ensures
            r.bucket_set() is None,
            r.key_set() is None,
            r.e_tag_set() is None,
            r.last_modified_set() is None,
            r.data_location_set() is None,
            r.metadata_set() is None,
            r.internal_info_set() is None,
    {
        S3ItemDetailBuilder {
            bucket: None,
            key: None,
            e_tag: None,
            last_modified: None,
            data_location: None,
            metadata: None,
            internal_info: None,
        }
    }
}

impl S3ItemDetailBuilder {
    /// The bucket this builder holds, if set.
    pub closed spec fn bucket_set(&self) -> Option<Seq<char>> {
        match self.bucket {
            Some(s) => Some(s@),
            None => None,
        }
    }

    /// The key this builder holds, if set.
    pub closed spec fn key_set(&self) -> Option<Seq<char>> {
        match self.key {
            Some(s) => Some(s@),
            None => None,
        }
    }

    /// The ETag this builder holds, if set.
    pub closed spec fn e_tag_set(&self) -> Option<Seq<char>> {
        match self.e_tag {
            Some(s) => Some(s@),
            None => None,
        }
    }

    /// The timestamp this builder holds, if set.
    pub closed spec fn last_modified_set(&self) -> Option<int> {
        match self.last_modified {
            Some(t) => Some(t as int),
            None => None,
        }
    }

    /// The data location this builder holds, if set.
    pub closed spec fn data_location_set(&self) -> Option<Seq<char>> {
        match self.data_location {
            Some(s) => Some(s@),
            None => None,
        }
    }

    /// The metadata string this builder holds, if set.
    pub closed spec fn metadata_set(&self) -> Option<Seq<char>> {
        match self.metadata {
            Some(s) => Some(s@),
            None => None,
        }
    }

    /// The internal info string this builder holds, if set.
    pub closed spec fn internal_info_set(&self) -> Option<Seq<char>> {
        match self.internal_info {
            Some(s) => Some(s@),
            None => None,
        }
    }

    /// Sets the bucket name.
    pub fn bucket(self, bucket: String) -> (r: Self)
        ensures
            r.bucket_set() == Some(bucket@),
            r.key_set() == self.key_set(),
            r.e_tag_set() == self.e_tag_set(),
            r.last_modified_set() == self.last_modified_set(),
            r.data_location_set() == self.data_location_set(),
            r.metadata_set() == self.metadata_set(),
            r.internal_info_set() == self.internal_info_set(),
    {
        Self { bucket: Some(bucket), ..self }
    }

    /// Sets the object key.
    pub fn key(self, key: String) -> (r: Self)
        ensures
            r.key_set() == Some(key@),
            r.bucket_set() == self.bucket_set(),
            r.e_tag_set() == self.e_tag_set(),
            r.last_modified_set() == self.last_modified_set(),
            r.data_location_set() == self.data_location_set(),
            r.metadata_set() == self.metadata_set(),
            r.internal_info_set() == self.internal_info_set(),
    {
        Self { key: Some(key), ..self }
    }

    /// Sets the ETag.
    pub fn e_tag(self, e_tag: String) -> (r: Self)
        ensures
            r.e_tag_set() == Some(e_tag@),
            r.bucket_set() == self.bucket_set(),
            r.key_set() == self.key_set(),
            r.last_modified_set() == self.last_modified_set(),
            r.data_location_set() == self.data_location_set(),
            r.metadata_set() == self.metadata_set(),
            r.internal_info_set() == self.internal_info_set(),
    {
        Self { e_tag: Some(e_tag), ..self }
    }

    /// Sets the modification timestamp.
    pub fn last_modified(self, last_modified: i64) -> (r: Self)
        ensures
            r.last_modified_set() == Some(last_modified as int),
            r.bucket_set() == self.bucket_set(),
            r.key_set() == self.key_set(),
            r.e_tag_set() == self.e_tag_set(),
            r.data_location_set() == self.data_location_set(),
            r.metadata_set() == self.metadata_set(),
            r.internal_info_set() == self.internal_info_set(),
    {
        Self { last_modified: Some(last_modified), ..self }
    }

    /// Sets the data location.
    pub fn data_location(self, data_location: String) -> (r: Self)
        ensures
            r.data_location_set() == Some(data_location@),
            r.bucket_set() == self.bucket_set(),
            r.key_set() == self.key_set(),
            r.e_tag_set() == self.e_tag_set(),
            r.last_modified_set() == self.last_modified_set(),
            r.metadata_set() == self.metadata_set(),
            r.internal_info_set() == self.internal_info_set(),
    {
        Self { data_location: Some(data_location), ..self }
    }

    /// Sets the serialized metadata.
    pub fn metadata(self, metadata: Option<String>) -> (r: Self)
        ensures
            r.metadata_set() == (match metadata {
                Some(s) => Some(s@),
                None => None::<Seq<char>>,
            }),
            r.bucket_set() == self.bucket_set(),
            r.key_set() == self.key_set(),
            r.e_tag_set() == self.e_tag_set(),
            r.last_modified_set() == self.last_modified_set(),
            r.data_location_set() == self.data_location_set(),
            r.internal_info_set() == self.internal_info_set(),
    {
        Self { metadata, ..self }
    }

    /// Sets the serialized internal info.
    pub fn internal_info(self, internal_info: Option<String>) -> (r: Self)
        ensures
            r.internal_info_set() == (match internal_info {
                Some(s) => Some(s@),
                None => None::<Seq<char>>,
            }),
            r.bucket_set() == self.bucket_set(),
            r.key_set() == self.key_set(),
            r.e_tag_set() == self.e_tag_set(),
            r.last_modified_set() == self.last_modified_set(),
            r.data_location_set() == self.data_location_set(),
            r.metadata_set() == self.metadata_set(),
    {
        Self { internal_info, ..self }
    }

    /// Builds the row. Every required field must have been set; the
    /// timestamp defaults to zero and is stamped by the catalog on save.
    pub fn build(self) -> (r: S3ItemDetail)
        requires
            self.bucket_set() is Some,
            self.key_set() is Some,
            self.e_tag_set() is Some,
            self.data_location_set() is Some,
            self.metadata_set() is Some,
            self.internal_info_set() is Some,
        ensures
            Some(r@.bucket) == self.bucket_set(),
            Some(r@.key) == self.key_set(),
            Some(r@.e_tag) == self.e_tag_set(),
            Some(r@.data_location) == self.data_location_set(),
            Some(r@.metadata) == self.metadata_set(),
            Some(r@.internal_info) == self.internal_info_set(),
            r@.last_modified == (match self.last_modified_set() {
                Some(t) => t,
                None => 0,
            }),
    {
        let last_modified: i64 = match self.last_modified {
            Some(t) => t,
            None => 0,
        };
        S3ItemDetail {
            bucket: self.bucket.unwrap(),
            key: self.key.unwrap(),
            e_tag: self.e_tag.unwrap(),
            last_modified,
            data_location: self.data_location.unwrap(),
            metadata: self.metadata.unwrap(),
            internal_info: self.internal_info.unwrap(),
        }
    }
}

/// Ghost value of one in-flight multipart upload.
pub ghost struct MultipartUploadV {
    pub upload_id: Seq<char>,
    pub bucket: Seq<char>,
    pub key: Seq<char>,
    pub metadata: Seq<char>,
    pub last_modified: int,
    pub access_key: Seq<char>,
}

/// One in-flight multipart upload: identity `upload_id`, destination
/// `(bucket, key)`, the metadata to apply on completion, and the access key
/// that owns the upload.
#[derive(Debug, Clone)]
pub struct MultipartUpload {
    pub upload_id: String,
    pub bucket: String,
    pub key: String,
    pub metadata: String,
    pub last_modified: i64,
    pub access_key: String,
}

impl DeepView for MultipartUpload {
    type V = MultipartUploadV;

    open spec fn deep_view(&self) -> MultipartUploadV {
        self.view()
    }
}

impl View for MultipartUpload {
    type V = MultipartUploadV;

    open spec fn view(&self) -> MultipartUploadV {
        MultipartUploadV {
            upload_id: self.upload_id@,
            bucket: self.bucket@,
            key: self.key@,
            metadata: self.metadata@,
            last_modified: self.last_modified as int,
            access_key: self.access_key@,
        }
    }
}

impl MultipartUpload {
    /// An owned copy of this row.
    pub fn clone_row(&self) -> (r: Self)
        ensures
            r@ == self@,
    {
        MultipartUpload {
            upload_id: self.upload_id.clone(),
            bucket: self.bucket.clone(),
            key: self.key.clone(),
            metadata: self.metadata.clone(),
            last_modified: self.last_modified,
            access_key: self.access_key.clone(),
        }
    }

    /// Starts a builder with no field set.
    pub fn builder() -> (r: MultipartUploadBuilder)
        ensures
            r.upload_id_set() is None,
            r.bucket_set() is None,
            r.key_set() is None,
            r.metadata_set() is None,
            r.access_key_set() is None,
    {
        MultipartUploadBuilder {
            upload_id: None,
            bucket: None,
            key: None,
            metadata: None,
            access_key: None,
        }
    }
}

/// Builder for [`MultipartUpload`].
#[derive(Debug)]
pub struct MultipartUploadBuilder {
    upload_id: Option<String>,
    bucket: Option<String>,
    key: Option<String>,
    metadata: Option<String>,
    access_key: Option<String>,
}

impl MultipartUploadBuilder {
    /// The upload ID this builder holds, if set.
    pub closed spec fn upload_id_set(&self) -> Option<Seq<char>> {
        match self.upload_id {
            Some(s) => Some(s@),
            None => None,
        }
    }

    /// The bucket this builder holds, if set.
    pub closed spec fn bucket_set(&self) -> Option<Seq<char>> {
        match self.bucket {
            Some(s) => Some(s@),
            None => None,
        }
    }

    /// The key this builder holds, if set.
    pub closed spec fn key_set(&self) -> Option<Seq<char>> {
        match self.key {
            Some(s) => Some(s@),
            None => None,
        }
    }

    /// The metadata this builder holds, if set.
    pub closed spec fn metadata_set(&self) -> Option<Seq<char>> {
        match self.metadata {
            Some(s) => Some(s@),
            None => None,
        }
    }

    /// The access key this builder holds, if set.
    pub closed spec fn access_key_set(&self) -> Option<Seq<char>> {
        match self.access_key {
            Some(s) => Some(s@),
            None => None,
        }
    }

    /// Sets the upload ID.
    pub fn upload_id(self, upload_id: String) -> (r: Self)
        ensures
            r.upload_id_set() == Some(upload_id@),
            r.bucket_set() == self.bucket_set(),
            r.key_set() == self.key_set(),
            r.metadata_set() == self.metadata_set(),
            r.access_key_set() == self.access_key_set(),
    {
        Self { upload_id: Some(upload_id), ..self }
    }

    /// Sets the bucket name.
    pub fn bucket(self, bucket: String) -> (r: Self)
        ensures
            r.bucket_set() == Some(bucket@),
            r.upload_id_set() == self.upload_id_set(),
            r.key_set() == self.key_set(),
            r.metadata_set() == self.metadata_set(),
            r.access_key_set() == self.access_key_set(),
    {
        Self { bucket: Some(bucket), ..self }
    }

    /// Sets the object key.
    pub fn key(self, key: String) -> (r: Self)
        ensures
            r.key_set() == Some(key@),
            r.upload_id_set() == self.upload_id_set(),
            r.bucket_set() == self.bucket_set(),
            r.metadata_set() == self.metadata_set(),
            r.access_key_set() == self.access_key_set(),
    {
        Self { key: Some(key), ..self }
    }

    /// Sets the metadata.
    pub fn metadata(self, metadata: String) -> (r: Self)
        ensures
            r.metadata_set() == Some(metadata@),
            r.upload_id_set() == self.upload_id_set(),
            r.bucket_set() == self.bucket_set(),
            r.key_set() == self.key_set(),
            r.access_key_set() == self.access_key_set(),
    {
        Self { metadata: Some(metadata), ..self }
    }

    /// Sets the access key.
    pub fn access_key(self, access_key: String) -> (r: Self)
        ensures
            r.access_key_set() == Some(access_key@),
            r.upload_id_set() == self.upload_id_set(),
            r.bucket_set() == self.bucket_set(),
            r.key_set() == self.key_set(),
            r.metadata_set() == self.metadata_set(),
    {
        Self { access_key: Some(access_key), ..self }
    }

    /// Builds a [`MultipartUpload`] from this builder. Every field must have
    /// been set; the timestamp defaults to zero and is stamped by the catalog
    /// on save.
    pub fn build(self) -> (r: MultipartUpload)
        requires
            self.upload_id_set() is Some,
            self.bucket_set() is Some,
            self.key_set() is Some,
            self.metadata_set() is Some,
            self.access_key_set() is Some,
        ensures
            Some(r@.upload_id) == self.upload_id_set(),
            Some(r@.bucket) == self.bucket_set(),
            Some(r@.key) == self.key_set(),
            Some(r@.metadata) == self.metadata_set(),
            Some(r@.access_key) == self.access_key_set(),
            r@.last_modified == 0,
    {
        MultipartUpload {
            upload_id: self.upload_id.unwrap(),
            bucket: self.bucket.unwrap(),
            key: self.key.unwrap(),
            metadata: self.metadata.unwrap(),
            last_modified: 0,
            access_key: self.access_key.unwrap(),
        }
    }
}

/// Ghost value of one multipart part row.
pub ghost struct MultipartUploadPartV {
    pub upload_id: Seq<char>,
    pub part_number: int,
    pub last_modified: int,
    pub md5: Seq<char>,
    pub data_location: Seq<char>,
}

/// One part of an in-flight multipart upload: identity
/// `(upload_id, part_number)`, the hex MD5 of the part's bytes, and the
/// location of the stored part file.
#[derive(Debug, Clone)]
pub struct MultipartUploadPart {
    pub upload_id: String,
    pub part_number: i32,
    pub last_modified: i64,
    pub md5: String,
    pub data_location: String,
}

impl DeepView for MultipartUploadPart {
    type V = MultipartUploadPartV;

    open spec fn deep_view(&self) -> MultipartUploadPartV {
        self.view()
    }
}

impl View for MultipartUploadPart {
    type V = MultipartUploadPartV;

    open spec fn view(&self) -> MultipartUploadPartV {
        MultipartUploadPartV {
            upload_id: self.upload_id@,
            part_number: self.part_number as int,
            last_modified: self.last_modified as int,
            md5: self.md5@,
            data_location: self.data_location@,
        }
    }
}

impl MultipartUploadPart {
    /// An owned copy of this row.
    pub fn clone_row(&self) -> (r: Self)
        ensures
            r@ == self@,
    {
        MultipartUploadPart {
            upload_id: self.upload_id.clone(),
            part_number: self.part_number,
            last_modified: self.last_modified,
            md5: self.md5.clone(),
            data_location: self.data_location.clone(),
        }
    }

    /// Starts a builder with no field set.
    pub fn builder() -> (r: MultipartUploadPartBuilder)
        ensures
            r.upload_id_set() is None,
            r.part_number_set() is None,
            r.md5_set() is None,
            r.data_location_set() is None,
    {
        MultipartUploadPartBuilder {
            upload_id: None,
            part_number: None,
            md5: None,
            data_location: None,
        }
    }
}

/// Builder for [`MultipartUploadPart`].
#[derive(Debug, Clone)]
pub struct MultipartUploadPartBuilder {
    upload_id: Option<String>,
    part_number: Option<i32>,
    md5: Option<String>,
    data_location: Option<String>,
}

impl MultipartUploadPartBuilder {
    /// The upload ID this builder holds, if set.
    pub closed spec fn upload_id_set(&self) -> Option<Seq<char>> {
        match self.upload_id {
            Some(s) => Some(s@),
            None => None,
        }
    }

    /// The part number this builder holds, if set.
    pub closed spec fn part_number_set(&self) -> Option<int> {
        match self.part_number {
            Some(n) => Some(n as int),
            None => None,
        }
    }

    /// The MD5 this builder holds, if set.
    pub closed spec fn md5_set(&self) -> Option<Seq<char>> {
        match self.md5 {
            Some(s) => Some(s@),
            None => None,
        }
    }

    /// The data location this builder holds, if set.
    pub closed spec fn data_location_set(&self) -> Option<Seq<char>> {
        match self.data_location {
            Some(s) => Some(s@),
            None => None,
        }
    }

    /// Sets the upload ID.
    pub fn upload_id(self, upload_id: String) -> (r: Self)
        ensures
            r.upload_id_set() == Some(upload_id@),
            r.part_number_set() == self.part_number_set(),
            r.md5_set() == self.md5_set(),
            r.data_location_set() == self.data_location_set(),
    {
        Self { upload_id: Some(upload_id), ..self }
    }

    /// Sets the part number.
    pub fn part_number(self, part_number: i32) -> (r: Self)
        ensures
            r.part_number_set() == Some(part_number as int),
            r.upload_id_set() == self.upload_id_set(),
            r.md5_set() == self.md5_set(),
            r.data_location_set() == self.data_location_set(),
    {
        Self { part_number: Some(part_number), ..self }
    }

    /// Sets the hex MD5 of the part body.
    pub fn md5(self, md5: String) -> (r: Self)
        ensures
            r.md5_set() == Some(md5@),
            r.upload_id_set() == self.upload_id_set(),
            r.part_number_set() == self.part_number_set(),
            r.data_location_set() == self.data_location_set(),
    {
        Self { md5: Some(md5), ..self }
    }

    /// Sets the location of the stored part file.
    pub fn data_location(self, data_location: String) -> (r: Self)
        ensures
            r.data_location_set() == Some(data_location@),
            r.upload_id_set() == self.upload_id_set(),
            r.part_number_set() == self.part_number_set(),
            r.md5_set() == self.md5_set(),
    {
        Self { data_location: Some(data_location), ..self }
    }

    /// Builds a [`MultipartUploadPart`] from this builder. Every field must
    /// have been set; the timestamp defaults to zero and is stamped by the
    /// catalog on save.
    pub fn build(self) -> (r: MultipartUploadPart)
        requires
            self.upload_id_set() is Some,
            self.part_number_set() is Some,
            self.md5_set() is Some,
            self.data_location_set() is Some,
        ensures
            Some(r@.upload_id) == self.upload_id_set(),
            Some(r@.part_number) == self.part_number_set(),
            Some(r@.md5) == self.md5_set(),
            Some(r@.data_location) == self.data_location_set(),
            r@.last_modified == 0,
    {
        MultipartUploadPart {
            upload_id: self.upload_id.unwrap(),
            part_number: self.part_number.unwrap(),
            last_modified: 0,
            md5: self.md5.unwrap(),
            data_location: self.data_location.unwrap(),
        }
    }
}

/// The client identity of one request: the access key pair the S3 framework
/// authenticated.
#[derive(Debug, Clone)]
pub struct Credentials {
    pub access_key: String,
    pub secret_key: String,
}

/// Retrieves the access key from optional credentials.
pub fn access_key_from_creds<'a>(cred: Option<&'a Credentials>) -> (r: Option<&'a str>)
    ensures
        match (r, cred) {
            (Some(ak), Some(c)) => ak@ == c.access_key@,
            (None, None) => true,
            _ => false,
        },
{
    match cred {
        Some(c) => Some(c.access_key.as_str()),
        None => None,
    }
}

/// Configuration of the metadata catalog's connection, as loaded from the
/// hierarchical configuration file.
#[derive(Debug, Clone)]
pub struct Settings {
    pub datasource: Ds,
}

/// Connection parameters and pool sizing of the catalog database.
#[derive(Debug, Clone)]
pub struct Ds {
    pub host: String,
    pub port: u16,
    pub db: String,
    pub user: String,
    pub password: String,
    pub schema: String,
    pub max_connections: u32,
    pub min_connections: u32,
    pub test_before_acquire: bool,
    pub acquire_slow_threshold: u64,
}

} // verus!
