use vstd::prelude::*;

use crate::strings::{lemma_lex_trans, lemma_lex_trichotomy, lex_lt, str_eq, str_lex_lt};
use crate::strings::has_prefix;
use crate::types::{
    MultipartUpload, MultipartUploadPart, MultipartUploadPartV, MultipartUploadV, S3ItemDetail,
    S3ItemDetailV,
};

verus! {

broadcast use vstd::seq_lib::group_filter_ensures;

/// The most rows one catalog query returns.
pub const MAX_QUERY_SIZE: usize = 1000;

/// A query result, capped at the query limit.
pub open spec fn query_capped<T>(s: Seq<T>) -> Seq<T> {
    if s.len() <= MAX_QUERY_SIZE as int {
        s
    } else {
        s.subrange(0, MAX_QUERY_SIZE as int)
    }
}

/// Strict order of object rows: by bucket, then by key.
pub open spec fn obj_lt(a: S3ItemDetailV, b: S3ItemDetailV) -> bool {
    ||| lex_lt(a.bucket, b.bucket)
    ||| (a.bucket == b.bucket && lex_lt(a.key, b.key))
}

/// Whether two object rows name the same object.
pub open spec fn obj_same_key(a: S3ItemDetailV, b: S3ItemDetailV) -> bool {
    a.bucket == b.bucket && a.key == b.key
}

/// Rows strictly ascending by `(bucket, key)`.
pub open spec fn objects_sorted(s: Seq<S3ItemDetailV>) -> bool {
    forall|i: int| 0 <= i < s.len() - 1 ==> obj_lt(#[trigger] s[i], s[i + 1])
}

/// The strict row order is trichotomous against key equality.
proof fn lemma_obj_order(a: S3ItemDetailV, b: S3ItemDetailV)
    ensures
        obj_lt(a, b) || obj_lt(b, a) || obj_same_key(a, b),
        obj_lt(a, b) ==> !obj_lt(b, a) && !obj_same_key(a, b),
        obj_lt(b, a) ==> !obj_lt(a, b) && !obj_same_key(a, b),
{
    lemma_lex_trichotomy(a.bucket, b.bucket);
    lemma_lex_trichotomy(a.key, b.key);
}

/// The strict row order is transitive.
proof fn lemma_obj_trans(a: S3ItemDetailV, b: S3ItemDetailV, c: S3ItemDetailV)
    requires
        obj_lt(a, b),
        obj_lt(b, c),
    ensures
        obj_lt(a, c),
{
    lemma_lex_trichotomy(a.bucket, b.bucket);
    lemma_lex_trichotomy(b.bucket, c.bucket);
    if lex_lt(a.bucket, b.bucket) && lex_lt(b.bucket, c.bucket) {
        lemma_lex_trans(a.bucket, b.bucket, c.bucket);
    }
    if a.bucket == b.bucket && b.bucket == c.bucket {
        lemma_lex_trans(a.key, b.key, c.key);
    }
}

/// In a sorted row sequence any earlier row is strictly below any later row.
pub proof fn lemma_objects_sorted_global(s: Seq<S3ItemDetailV>, i: int, j: int)
    requires
        objects_sorted(s),
        0 <= i < j < s.len(),
    ensures
        obj_lt(s[i], s[j]),
    decreases j - i,
{
    if i + 1 < j {
        lemma_objects_sorted_global(s, i + 1, j);
        lemma_obj_trans(s[i], s[i + 1], s[j]);
    }
}

/// The first row with the given bucket and key, if any.
pub open spec fn lookup_obj(s: Seq<S3ItemDetailV>, bucket: Seq<char>, key: Seq<char>) -> Option<
    S3ItemDetailV,
>
    decreases s.len(),
{
    if s.len() == 0 {
        None
    } else if s[0].bucket == bucket && s[0].key == key {
        Some(s[0])
    } else {
        lookup_obj(s.drop_first(), bucket, key)
    }
}

/// A sorted row sequence with one row inserted or replaced by `(bucket, key)`.
pub open spec fn upsert_obj(s: Seq<S3ItemDetailV>, r: S3ItemDetailV) -> Seq<S3ItemDetailV>
    decreases s.len(),
{
    if s.len() == 0 {
        seq![r]
    } else if obj_lt(r, s[0]) {
        seq![r] + s
    } else if obj_same_key(r, s[0]) {
        seq![r] + s.drop_first()
    } else {
        seq![s[0]] + upsert_obj(s.drop_first(), r)
    }
}

/// Upserting keeps the rows sorted and changes exactly the row of its key.
pub proof fn lemma_upsert_obj(s: Seq<S3ItemDetailV>, r: S3ItemDetailV)
    requires
        objects_sorted(s),
    ensures
        objects_sorted(upsert_obj(s, r)),
        lookup_obj(upsert_obj(s, r), r.bucket, r.key) == Some(r),
        forall|b: Seq<char>, k: Seq<char>|
            !(b == r.bucket && k == r.key) ==> #[trigger] lookup_obj(upsert_obj(s, r), b, k)
                == lookup_obj(s, b, k),
        forall|i: int|
            0 <= i < upsert_obj(s, r).len() ==> #[trigger] upsert_obj(s, r)[i] == r || (s.contains(
                upsert_obj(s, r)[i],
            ) && !obj_same_key(upsert_obj(s, r)[i], r)),
        upsert_obj(s, r).len() <= s.len() + 1,
    decreases s.len(),
{
    let t = upsert_obj(s, r);
    if s.len() == 0 {
        assert(t == seq![r]);
        assert(t[0] == r);
        assert(t.drop_first() =~= Seq::<S3ItemDetailV>::empty());
        assert forall|b: Seq<char>, k: Seq<char>| !(b == r.bucket && k == r.key) implies #[trigger] lookup_obj(
            t,
            b,
            k,
        ) == lookup_obj(s, b, k) by {
            assert(lookup_obj(Seq::<S3ItemDetailV>::empty(), b, k) is None);
            assert(lookup_obj(t, b, k) is None);
        }
        return ;
    }
    lemma_obj_order(r, s[0]);
    if s.len() == 0 {
    } else if obj_lt(r, s[0]) {
        assert(t == seq![r] + s);
        assert(t[0] == r);
        assert(forall|i: int| 0 <= i < s.len() ==> t[i + 1] == s[i]);
        assert(objects_sorted(t)) by {
            assert(forall|i: int| 1 <= i < t.len() - 1 ==> obj_lt(#[trigger] t[i], t[i + 1]));
        }
        assert(t.drop_first() =~= s);
        assert forall|b: Seq<char>, k: Seq<char>| !(b == r.bucket && k == r.key) implies #[trigger] lookup_obj(
            t,
            b,
            k,
        ) == lookup_obj(s, b, k) by {
            assert(!(t[0].bucket == b && t[0].key == k) ==> lookup_obj(t, b, k) == lookup_obj(
                t.drop_first(),
                b,
                k,
            ));
        }
        assert forall|i: int| 0 <= i < t.len() implies #[trigger] t[i] == r || (s.contains(t[i])
            && !obj_same_key(t[i], r)) by {
            if i > 0 {
                assert(t[i] == s[i - 1]);
                if obj_same_key(t[i], r) {
                    if i - 1 > 0 {
                        lemma_objects_sorted_global(s, 0, i - 1);
                        lemma_obj_trans(r, s[0], s[i - 1]);
                    }
                    lemma_obj_order(r, s[i - 1]);
                }
            }
        }
    } else if obj_same_key(r, s[0]) {
        assert(t == seq![r] + s.drop_first());
        assert(t[0] == r);
        assert(t.drop_first() =~= s.drop_first());
        assert(objects_sorted(s.drop_first()));
        assert(objects_sorted(t)) by {
            if t.len() > 1 {
                assert(forall|i: int|
                    0 <= i < s.drop_first().len() ==> t[i + 1] == s.drop_first()[i]);
                assert(t[1] == s[1]);
                assert(obj_lt(s[0], s[1]));
                assert(obj_lt(t[0], t[1]));
                assert(forall|i: int| 1 <= i < t.len() - 1 ==> obj_lt(#[trigger] t[i], t[i + 1]));
            }
        }
        assert forall|b: Seq<char>, k: Seq<char>| !(b == r.bucket && k == r.key) implies #[trigger] lookup_obj(
            t,
            b,
            k,
        ) == lookup_obj(s, b, k) by {
            assert(lookup_obj(s, b, k) == lookup_obj(s.drop_first(), b, k));
        }
        assert forall|i: int| 0 <= i < t.len() implies #[trigger] t[i] == r || (s.contains(t[i])
            && !obj_same_key(t[i], r)) by {
            if i > 0 {
                assert(t[i] == s[i]);
                if obj_same_key(t[i], r) {
                    if i > 1 {
                        lemma_objects_sorted_global(s, 1, i);
                        lemma_obj_trans(s[0], s[1], s[i]);
                    }
                    assert(obj_lt(s[0], s[i]));
                    lemma_obj_order(s[0], s[i]);
                }
            }
        }
    } else {
        assert(obj_lt(s[0], r));
        assert(objects_sorted(s.drop_first()));
        lemma_upsert_obj(s.drop_first(), r);
        let u = upsert_obj(s.drop_first(), r);
        assert(t == seq![s[0]] + u);
        assert(t[0] == s[0]);
        assert(forall|i: int| 0 <= i < u.len() ==> t[i + 1] == u[i]);
        assert(objects_sorted(t)) by {
            if u.len() > 0 {
                assert(u[0] == r || (s.drop_first().contains(u[0]) && !obj_same_key(u[0], r)));
                if u[0] == r {
                    assert(obj_lt(t[0], t[1]));
                } else {
                    let w = choose|w: int|
                        0 <= w < s.drop_first().len() && s.drop_first()[w] == u[0];
                    assert(s[w + 1] == u[0]);
                    lemma_objects_sorted_global(s, 0, w + 1);
                    assert(obj_lt(t[0], t[1]));
                }
                assert(forall|i: int| 1 <= i < t.len() - 1 ==> obj_lt(#[trigger] t[i], t[i + 1]));
            }
        }
        assert(t.drop_first() =~= u);
        assert(lookup_obj(t, r.bucket, r.key) == Some(r)) by {
            assert(!obj_same_key(s[0], r));
        }
        assert forall|b: Seq<char>, k: Seq<char>| !(b == r.bucket && k == r.key) implies #[trigger] lookup_obj(
            t,
            b,
            k,
        ) == lookup_obj(s, b, k) by {
            assert(lookup_obj(u, b, k) == lookup_obj(s.drop_first(), b, k));
        }
        assert forall|i: int| 0 <= i < t.len() implies #[trigger] t[i] == r || (s.contains(t[i])
            && !obj_same_key(t[i], r)) by {
            if i == 0 {
                assert(s.contains(s[0]));
                lemma_obj_order(s[0], r);
            } else {
                assert(t[i] == u[i - 1]);
                if t[i] != r {
                    assert(s.drop_first().contains(t[i]));
                    let w = choose|w: int|
                        0 <= w < s.drop_first().len() && s.drop_first()[w] == t[i];
                    assert(s[w + 1] == t[i]);
                    assert(s.contains(t[i]));
                }
            }
        }
    }
}

/// A row found by lookup is a row of the sequence with that key.
pub proof fn lemma_lookup_obj_contains(s: Seq<S3ItemDetailV>, bucket: Seq<char>, key: Seq<char>)
    ensures
        match lookup_obj(s, bucket, key) {
            Some(v) => s.contains(v) && v.bucket == bucket && v.key == key,
            None => forall|i: int|
                0 <= i < s.len() ==> !(#[trigger] s[i].bucket == bucket && s[i].key == key),
        },
    decreases s.len(),
{
    if s.len() > 0 {
        lemma_lookup_obj_contains(s.drop_first(), bucket, key);
        if !(s[0].bucket == bucket && s[0].key == key) {
            match lookup_obj(s.drop_first(), bucket, key) {
                Some(v) => {
                    let w = choose|w: int|
                        0 <= w < s.drop_first().len() && s.drop_first()[w] == v;
                    assert(s[w + 1] == v);
                },
                None => {
                    assert(forall|i: int|
                        1 <= i < s.len() ==> s.drop_first()[i - 1] == #[trigger] s[i]);
                },
            }
        }
    }
}

/// The first upload row with the given upload ID, if any.
pub open spec fn lookup_upload(s: Seq<MultipartUploadV>, upload_id: Seq<char>) -> Option<
    MultipartUploadV,
>
    decreases s.len(),
{
    if s.len() == 0 {
        None
    } else if s[0].upload_id == upload_id {
        Some(s[0])
    } else {
        lookup_upload(s.drop_first(), upload_id)
    }
}

/// Upload rows with pairwise distinct IDs.
pub open spec fn uploads_unique(s: Seq<MultipartUploadV>) -> bool {
    forall|i: int, j: int|
        0 <= i < j < s.len() ==> (#[trigger] s[i]).upload_id != (#[trigger] s[j]).upload_id
}

/// An upload row found by lookup is a row of the sequence with that ID.
pub proof fn lemma_lookup_upload_contains(s: Seq<MultipartUploadV>, upload_id: Seq<char>)
    ensures
        match lookup_upload(s, upload_id) {
            Some(v) => s.contains(v) && v.upload_id == upload_id,
            None => forall|i: int| 0 <= i < s.len() ==> (#[trigger] s[i]).upload_id != upload_id,
        },
    decreases s.len(),
{
    if s.len() > 0 {
        lemma_lookup_upload_contains(s.drop_first(), upload_id);
        if s[0].upload_id != upload_id {
            match lookup_upload(s.drop_first(), upload_id) {
                Some(v) => {
                    let w = choose|w: int|
                        0 <= w < s.drop_first().len() && s.drop_first()[w] == v;
                    assert(s[w + 1] == v);
                },
                None => {
                    assert(forall|i: int|
                        1 <= i < s.len() ==> s.drop_first()[i - 1] == #[trigger] s[i]);
                },
            }
        }
    }
}

/// Appending a row with a fresh ID leaves other lookups unchanged.
pub proof fn lemma_lookup_upload_push(s: Seq<MultipartUploadV>, r: MultipartUploadV)
    requires
        lookup_upload(s, r.upload_id) is None,
    ensures
        lookup_upload(s.push(r), r.upload_id) == Some(r),
        forall|u: Seq<char>|
            u != r.upload_id ==> #[trigger] lookup_upload(s.push(r), u) == lookup_upload(s, u),
    decreases s.len(),
{
    if s.len() == 0 {
        assert(s.push(r)[0] == r);
        assert(s.push(r).drop_first() =~= Seq::<MultipartUploadV>::empty());
        assert forall|u: Seq<char>| u != r.upload_id implies #[trigger] lookup_upload(s.push(r), u)
            == lookup_upload(s, u) by {
            assert(lookup_upload(Seq::<MultipartUploadV>::empty(), u) is None);
            assert(lookup_upload(s.push(r), u) is None);
        }
    } else {
        assert(s.push(r)[0] == s[0]);
        assert(s.push(r).drop_first() =~= s.drop_first().push(r));
        lemma_lookup_upload_push(s.drop_first(), r);
        assert forall|u: Seq<char>| u != r.upload_id implies #[trigger] lookup_upload(s.push(r), u)
            == lookup_upload(s, u) by {
            if s[0].upload_id != u {
                assert(lookup_upload(s.push(r), u) == lookup_upload(s.drop_first().push(r), u));
                assert(lookup_upload(s.drop_first().push(r), u) == lookup_upload(
                    s.drop_first(),
                    u,
                ));
            }
        }
    }
}

/// The first part row with the given ID and number, if any.
pub open spec fn lookup_part(s: Seq<MultipartUploadPartV>, upload_id: Seq<char>, n: int) -> Option<
    MultipartUploadPartV,
>
    decreases s.len(),
{
    if s.len() == 0 {
        None
    } else if s[0].upload_id == upload_id && s[0].part_number == n {
        Some(s[0])
    } else {
        lookup_part(s.drop_first(), upload_id, n)
    }
}

/// A part row found by lookup is a row of the sequence with that key.
pub proof fn lemma_lookup_part_contains(s: Seq<MultipartUploadPartV>, upload_id: Seq<char>, n: int)
    ensures
        match lookup_part(s, upload_id, n) {
            Some(v) => s.contains(v) && v.upload_id == upload_id && v.part_number == n,
            None => forall|i: int|
                0 <= i < s.len() ==> !((#[trigger] s[i]).upload_id == upload_id && s[i].part_number
                    == n),
        },
    decreases s.len(),
{
    if s.len() > 0 {
        lemma_lookup_part_contains(s.drop_first(), upload_id, n);
        if !(s[0].upload_id == upload_id && s[0].part_number == n) {
            match lookup_part(s.drop_first(), upload_id, n) {
                Some(v) => {
                    let w = choose|w: int|
                        0 <= w < s.drop_first().len() && s.drop_first()[w] == v;
                    assert(s[w + 1] == v);
                },
                None => {
                    assert(forall|i: int|
                        1 <= i < s.len() ==> s.drop_first()[i - 1] == #[trigger] s[i]);
                },
            }
        }
    }
}

/// Strict order of part rows: by upload ID, then by part number.
pub open spec fn part_lt(a: MultipartUploadPartV, b: MultipartUploadPartV) -> bool {
    ||| lex_lt(a.upload_id, b.upload_id)
    ||| (a.upload_id == b.upload_id && a.part_number < b.part_number)
}

/// Whether two part rows name the same part.
pub open spec fn part_same_key(a: MultipartUploadPartV, b: MultipartUploadPartV) -> bool {
    a.upload_id == b.upload_id && a.part_number == b.part_number
}

/// Part rows strictly ascending by `(upload_id, part_number)`.
pub open spec fn parts_sorted(s: Seq<MultipartUploadPartV>) -> bool {
    forall|i: int| 0 <= i < s.len() - 1 ==> part_lt(#[trigger] s[i], s[i + 1])
}

/// The strict part order is trichotomous against key equality.
proof fn lemma_part_order(a: MultipartUploadPartV, b: MultipartUploadPartV)
    ensures
        part_lt(a, b) || part_lt(b, a) || part_same_key(a, b),
        part_lt(a, b) ==> !part_lt(b, a) && !part_same_key(a, b),
        part_lt(b, a) ==> !part_lt(a, b) && !part_same_key(a, b),
{
    lemma_lex_trichotomy(a.upload_id, b.upload_id);
}

/// The strict part order is transitive.
proof fn lemma_part_trans(a: MultipartUploadPartV, b: MultipartUploadPartV, c: MultipartUploadPartV)
    requires
        part_lt(a, b),
        part_lt(b, c),
    ensures
        part_lt(a, c),
{
    lemma_lex_trichotomy(a.upload_id, b.upload_id);
    lemma_lex_trichotomy(b.upload_id, c.upload_id);
    if lex_lt(a.upload_id, b.upload_id) && lex_lt(b.upload_id, c.upload_id) {
        lemma_lex_trans(a.upload_id, b.upload_id, c.upload_id);
    }
}

/// In a sorted part sequence any earlier row is strictly below any later row.
pub proof fn lemma_parts_sorted_global(s: Seq<MultipartUploadPartV>, i: int, j: int)
    requires
        parts_sorted(s),
        0 <= i < j < s.len(),
    ensures
        part_lt(s[i], s[j]),
    decreases j - i,
{
    if i + 1 < j {
        lemma_parts_sorted_global(s, i + 1, j);
        lemma_part_trans(s[i], s[i + 1], s[j]);
    }
}

/// A sorted part sequence with one row inserted or replaced.
pub open spec fn upsert_part(s: Seq<MultipartUploadPartV>, r: MultipartUploadPartV) -> Seq<
    MultipartUploadPartV,
>
    decreases s.len(),
{
    if s.len() == 0 {
        seq![r]
    } else if part_lt(r, s[0]) {
        seq![r] + s
    } else if part_same_key(r, s[0]) {
        seq![r] + s.drop_first()
    } else {
        seq![s[0]] + upsert_part(s.drop_first(), r)
    }
}

/// Upserting keeps the part rows sorted and changes exactly the row of its key.
pub proof fn lemma_upsert_part(s: Seq<MultipartUploadPartV>, r: MultipartUploadPartV)
    requires
        parts_sorted(s),
    ensures
        parts_sorted(upsert_part(s, r)),
        lookup_part(upsert_part(s, r), r.upload_id, r.part_number) == Some(r),
        forall|u: Seq<char>, n: int|
            !(u == r.upload_id && n == r.part_number) ==> #[trigger] lookup_part(
                upsert_part(s, r),
                u,
                n,
            ) == lookup_part(s, u, n),
        forall|i: int|
            0 <= i < upsert_part(s, r).len() ==> #[trigger] upsert_part(s, r)[i] == r || (
            s.contains(upsert_part(s, r)[i]) && !part_same_key(upsert_part(s, r)[i], r)),
        upsert_part(s, r).len() <= s.len() + 1,
    decreases s.len(),
{
    let t = upsert_part(s, r);
    if s.len() == 0 {
        assert(t == seq![r]);
        assert(t[0] == r);
        assert(t.drop_first() =~= Seq::<MultipartUploadPartV>::empty());
        assert forall|u: Seq<char>, n: int| !(u == r.upload_id && n == r.part_number) implies #[trigger] lookup_part(
            t,
            u,
            n,
        ) == lookup_part(s, u, n) by {
            assert(lookup_part(Seq::<MultipartUploadPartV>::empty(), u, n) is None);
            assert(lookup_part(t, u, n) is None);
        }
        return ;
    }
    lemma_part_order(r, s[0]);
    if s.len() == 0 {
    } else if part_lt(r, s[0]) {
        assert(t == seq![r] + s);
        assert(t[0] == r);
        assert(forall|i: int| 0 <= i < s.len() ==> t[i + 1] == s[i]);
        assert(parts_sorted(t)) by {
            assert(forall|i: int| 1 <= i < t.len() - 1 ==> part_lt(#[trigger] t[i], t[i + 1]));
        }
        assert(t.drop_first() =~= s);
        assert forall|i: int| 0 <= i < t.len() implies #[trigger] t[i] == r || (s.contains(t[i])
            && !part_same_key(t[i], r)) by {
            if i > 0 {
                assert(t[i] == s[i - 1]);
                if part_same_key(t[i], r) {
                    if i - 1 > 0 {
                        lemma_parts_sorted_global(s, 0, i - 1);
                        lemma_part_trans(r, s[0], s[i - 1]);
                    }
                    lemma_part_order(r, s[i - 1]);
                }
            }
        }
    } else if part_same_key(r, s[0]) {
        assert(t == seq![r] + s.drop_first());
        assert(t[0] == r);
        assert(t.drop_first() =~= s.drop_first());
        assert(parts_sorted(s.drop_first()));
        assert(parts_sorted(t)) by {
            if t.len() > 1 {
                assert(forall|i: int|
                    0 <= i < s.drop_first().len() ==> t[i + 1] == s.drop_first()[i]);
                assert(t[1] == s[1]);
                assert(part_lt(s[0], s[1]));
                assert(part_lt(t[0], t[1]));
                assert(forall|i: int| 1 <= i < t.len() - 1 ==> part_lt(#[trigger] t[i], t[i + 1]));
            }
        }
        assert forall|u: Seq<char>, n: int| !(u == r.upload_id && n == r.part_number) implies #[trigger] lookup_part(
            t,
            u,
            n,
        ) == lookup_part(s, u, n) by {
            assert(lookup_part(s, u, n) == lookup_part(s.drop_first(), u, n));
        }
        assert forall|i: int| 0 <= i < t.len() implies #[trigger] t[i] == r || (s.contains(t[i])
            && !part_same_key(t[i], r)) by {
            if i > 0 {
                assert(t[i] == s[i]);
                if part_same_key(t[i], r) {
                    if i > 1 {
                        lemma_parts_sorted_global(s, 1, i);
                        lemma_part_trans(s[0], s[1], s[i]);
                    }
                    assert(part_lt(s[0], s[i]));
                    lemma_part_order(s[0], s[i]);
                }
            }
        }
    } else {
        assert(part_lt(s[0], r));
        assert(parts_sorted(s.drop_first()));
        lemma_upsert_part(s.drop_first(), r);
        let u = upsert_part(s.drop_first(), r);
        assert(t == seq![s[0]] + u);
        assert(t[0] == s[0]);
        assert(forall|i: int| 0 <= i < u.len() ==> t[i + 1] == u[i]);
        assert(parts_sorted(t)) by {
            if u.len() > 0 {
                assert(u[0] == r || (s.drop_first().contains(u[0]) && !part_same_key(u[0], r)));
                if u[0] == r {
                    assert(part_lt(t[0], t[1]));
                } else {
                    let w = choose|w: int|
                        0 <= w < s.drop_first().len() && s.drop_first()[w] == u[0];
                    assert(s[w + 1] == u[0]);
                    lemma_parts_sorted_global(s, 0, w + 1);
                    assert(part_lt(t[0], t[1]));
                }
                assert(forall|i: int| 1 <= i < t.len() - 1 ==> part_lt(#[trigger] t[i], t[i + 1]));
            }
        }
        assert(t.drop_first() =~= u);
        assert(lookup_part(t, r.upload_id, r.part_number) == Some(r)) by {
            assert(!part_same_key(s[0], r));
        }
        assert forall|un: Seq<char>, n: int| !(un == r.upload_id && n == r.part_number) implies #[trigger] lookup_part(
            t,
            un,
            n,
        ) == lookup_part(s, un, n) by {
            assert(lookup_part(u, un, n) == lookup_part(s.drop_first(), un, n));
        }
        assert forall|i: int| 0 <= i < t.len() implies #[trigger] t[i] == r || (s.contains(t[i])
            && !part_same_key(t[i], r)) by {
            if i == 0 {
                assert(s.contains(s[0]));
                lemma_part_order(s[0], r);
            } else {
                assert(t[i] == u[i - 1]);
                if t[i] != r {
                    assert(s.drop_first().contains(t[i]));
                    let w = choose|w: int|
                        0 <= w < s.drop_first().len() && s.drop_first()[w] == t[i];
                    assert(s[w + 1] == t[i]);
                    assert(s.contains(t[i]));
                }
            }
        }
    }
}

/// Filtering a sorted row sequence keeps it sorted, and keeps only rows of
/// the input.
pub proof fn lemma_filter_sorted_objects(s: Seq<S3ItemDetailV>, pred: spec_fn(S3ItemDetailV) -> bool)
    requires
        objects_sorted(s),
    ensures
        objects_sorted(s.filter(pred)),
        forall|i: int| 0 <= i < s.filter(pred).len() ==> s.contains(#[trigger] s.filter(pred)[i]),
    decreases s.len(),
{
    reveal(Seq::filter);
    if s.len() > 0 {
        assert(objects_sorted(s.drop_last())) by {
            assert(forall|i: int|
                0 <= i < s.drop_last().len() ==> s.drop_last()[i] == #[trigger] s[i]);
        }
        lemma_filter_sorted_objects(s.drop_last(), pred);
        let sub = s.drop_last().filter(pred);
        assert(forall|i: int|
            0 <= i < sub.len() ==> s.drop_last().contains(#[trigger] sub[i]));
        assert forall|i: int| 0 <= i < sub.len() implies s.contains(#[trigger] sub[i]) by {
            let w = choose|w: int| 0 <= w < s.drop_last().len() && s.drop_last()[w] == sub[i];
            assert(s[w] == sub[i]);
        }
        if pred(s.last()) {
            let t = sub.push(s.last());
            assert(s.contains(s.last()));
            assert(objects_sorted(t)) by {
                assert forall|i: int| 0 <= i < t.len() - 1 implies obj_lt(
                    #[trigger] t[i],
                    t[i + 1],
                ) by {
                    if i + 1 == t.len() - 1 {
                        assert(t[i] == sub[i]);
                        let w = choose|w: int|
                            0 <= w < s.drop_last().len() && s.drop_last()[w] == sub[i];
                        assert(s[w] == sub[i]);
                        lemma_objects_sorted_global(s, w, s.len() - 1);
                    } else {
                        assert(t[i] == sub[i] && t[i + 1] == sub[i + 1]);
                    }
                }
            }
        }
    }
}

/// Filtering a sorted part sequence keeps it sorted, and keeps only rows of
/// the input.
pub proof fn lemma_filter_sorted_parts(
    s: Seq<MultipartUploadPartV>,
    pred: spec_fn(MultipartUploadPartV) -> bool,
)
    requires
        parts_sorted(s),
    ensures
        parts_sorted(s.filter(pred)),
        forall|i: int| 0 <= i < s.filter(pred).len() ==> s.contains(#[trigger] s.filter(pred)[i]),
    decreases s.len(),
{
    reveal(Seq::filter);
    if s.len() > 0 {
        assert(parts_sorted(s.drop_last())) by {
            assert(forall|i: int|
                0 <= i < s.drop_last().len() ==> s.drop_last()[i] == #[trigger] s[i]);
        }
        lemma_filter_sorted_parts(s.drop_last(), pred);
        let sub = s.drop_last().filter(pred);
        assert(forall|i: int|
            0 <= i < sub.len() ==> s.drop_last().contains(#[trigger] sub[i]));
        assert forall|i: int| 0 <= i < sub.len() implies s.contains(#[trigger] sub[i]) by {
            let w = choose|w: int| 0 <= w < s.drop_last().len() && s.drop_last()[w] == sub[i];
            assert(s[w] == sub[i]);
        }
        if pred(s.last()) {
            let t = sub.push(s.last());
            assert(s.contains(s.last()));
            assert(parts_sorted(t)) by {
                assert forall|i: int| 0 <= i < t.len() - 1 implies part_lt(
                    #[trigger] t[i],
                    t[i + 1],
                ) by {
                    if i + 1 == t.len() - 1 {
                        assert(t[i] == sub[i]);
                        let w = choose|w: int|
                            0 <= w < s.drop_last().len() && s.drop_last()[w] == sub[i];
                        assert(s[w] == sub[i]);
                        lemma_parts_sorted_global(s, w, s.len() - 1);
                    } else {
                        assert(t[i] == sub[i] && t[i + 1] == sub[i + 1]);
                    }
                }
            }
        }
    }
}

/// Removing the row holding an upload ID makes its lookup fail, keeps other
/// lookups, and keeps uniqueness.
proof fn lemma_upload_remove(s: Seq<MultipartUploadV>, i: int)
    requires
        uploads_unique(s),
        0 <= i < s.len(),
    ensures
        uploads_unique(s.remove(i)),
        lookup_upload(s.remove(i), s[i].upload_id) is None,
        forall|u: Seq<char>|
            u != s[i].upload_id ==> #[trigger] lookup_upload(s.remove(i), u) == lookup_upload(s, u),
    decreases s.len(),
{
    let t = s.remove(i);
    assert(uploads_unique(t)) by {
        assert(forall|j: int| 0 <= j < i ==> t[j] == #[trigger] s[j]);
        assert(forall|j: int| i <= j < t.len() ==> t[j] == #[trigger] s[j + 1]);
        assert forall|a: int, b: int| 0 <= a < b < t.len() implies (#[trigger] t[a]).upload_id != (
        #[trigger] t[b]).upload_id by {
            let sa = if a < i { a } else { a + 1 };
            let sb = if b < i { b } else { b + 1 };
            assert(t[a] == s[sa] && t[b] == s[sb]);
        }
    }
    if i == 0 {
        assert(t =~= s.drop_first());
        lemma_lookup_upload_contains(s.drop_first(), s[0].upload_id);
        if lookup_upload(s.drop_first(), s[0].upload_id) is Some {
            let v = lookup_upload(s.drop_first(), s[0].upload_id).unwrap();
            let w = choose|w: int| 0 <= w < s.drop_first().len() && s.drop_first()[w] == v;
            assert(s[w + 1] == v);
            assert(s[0].upload_id == s[w + 1].upload_id);
        }
        assert forall|u: Seq<char>| u != s[0].upload_id implies #[trigger] lookup_upload(t, u)
            == lookup_upload(s, u) by {
            assert(lookup_upload(s, u) == lookup_upload(s.drop_first(), u));
        }
    } else {
        assert(uploads_unique(s.drop_first())) by {
            assert(forall|j: int| 0 <= j < s.drop_first().len() ==> s.drop_first()[j] == #[trigger] s[j + 1]);
        }
        assert(s.drop_first()[i - 1] == s[i]);
        lemma_upload_remove(s.drop_first(), i - 1);
        assert(t.drop_first() =~= s.drop_first().remove(i - 1));
        assert(t[0] == s[0]);
        assert(s[0].upload_id != s[i].upload_id);
        assert(lookup_upload(t, s[i].upload_id) is None);
        assert forall|u: Seq<char>| u != s[i].upload_id implies #[trigger] lookup_upload(t, u)
            == lookup_upload(s, u) by {
            if s[0].upload_id != u {
                assert(lookup_upload(t, u) == lookup_upload(s.drop_first().remove(i - 1), u));
                assert(lookup_upload(s, u) == lookup_upload(s.drop_first(), u));
            }
        }
    }
}

/// The metadata catalog: one table of live objects and the in-flight
/// multipart registry, held in memory with the same semantics the relational
/// store provides.
pub struct Catalog {
    objects: Vec<S3ItemDetail>,
    uploads: Vec<MultipartUpload>,
    parts: Vec<MultipartUploadPart>,
}

impl Catalog {
    /// The object rows, in ascending `(bucket, key)` order.
    pub closed spec fn objects_view(&self) -> Seq<S3ItemDetailV> {
        self.objects.deep_view()
    }

    /// The in-flight multipart upload rows.
    pub closed spec fn uploads_view(&self) -> Seq<MultipartUploadV> {
        self.uploads.deep_view()
    }

    /// The multipart part rows, in ascending `(upload_id, part_number)` order.
    pub closed spec fn parts_view(&self) -> Seq<MultipartUploadPartV> {
        self.parts.deep_view()
    }

    /// Table invariants: objects sorted by key, upload IDs unique, parts
    /// sorted by `(upload_id, part_number)`.
    pub open spec fn wf(&self) -> bool {
        &&& objects_sorted(self.objects_view())
        &&& uploads_unique(self.uploads_view())
        &&& parts_sorted(self.parts_view())
    }

    /// An empty catalog.
    pub fn new() -> (r: Catalog)
        ensures
            r.wf(),
            r.objects_view() == Seq::<S3ItemDetailV>::empty(),
            r.uploads_view() == Seq::<MultipartUploadV>::empty(),
            r.parts_view() == Seq::<MultipartUploadPartV>::empty(),
    {
        let r = Catalog { objects: Vec::new(), uploads: Vec::new(), parts: Vec::new() };
        proof {
            assert(r.objects_view() =~= Seq::<S3ItemDetailV>::empty());
            assert(r.uploads_view() =~= Seq::<MultipartUploadV>::empty());
            assert(r.parts_view() =~= Seq::<MultipartUploadPartV>::empty());
        }
        r
    }

    /// Inserts or replaces the object row of `(bucket, key)`, stamping its
    /// modification time.
    pub fn save_s3_item_detail(&mut self, item: S3ItemDetail, now: i64)
        requires
            old(self).wf(),
        ensures
            final(self).wf(),
            final(self).objects_view() == upsert_obj(
                old(self).objects_view(),
                S3ItemDetailV { last_modified: now as int, ..item@ },
            ),
            final(self).uploads_view() == old(self).uploads_view(),
            final(self).parts_view() == old(self).parts_view(),
    {
        let stamped = S3ItemDetail { last_modified: now, ..item };
        let ghost r = stamped@;
        let ghost s = self.objects.deep_view();
        proof {
            assert(s.skip(0) =~= s);
            assert(s.subrange(0, 0) + upsert_obj(s, r) =~= upsert_obj(s, r));
        }
        let n: usize = self.objects.len();
        let mut i: usize = 0;
        while i < n
            invariant
                n == s.len(),
                0 <= i <= n,
                s == self.objects.deep_view(),
                s == old(self).objects_view(),
                self.uploads.deep_view() == old(self).uploads_view(),
                self.parts.deep_view() == old(self).parts_view(),
                r == (S3ItemDetailV { last_modified: now as int, ..item@ }),
                r == stamped@,
                objects_sorted(s),
                upsert_obj(s, r) == s.subrange(0, i as int) + upsert_obj(s.skip(i as int), r),
                forall|j: int| 0 <= j < i ==> obj_lt(#[trigger] s[j], r),
            ensures
                s == self.objects.deep_view(),
                s == old(self).objects_view(),
                self.uploads.deep_view() == old(self).uploads_view(),
                self.parts.deep_view() == old(self).parts_view(),
                r == (S3ItemDetailV { last_modified: now as int, ..item@ }),
                r == stamped@,
                0 <= i <= n,
                n == s.len(),
                objects_sorted(s),
                upsert_obj(s, r) == s.subrange(0, i as int) + upsert_obj(s.skip(i as int), r),
                i < n ==> !obj_exec_lt_v(s[i as int], r),
            decreases n - i,
        {
            let row = &self.objects[i];
            let is_lt = obj_row_lt(row, &stamped);
            if !is_lt {
                break;
            }
            proof {
                assert(s.skip(i as int)[0] == s[i as int]);
                assert(s.skip(i as int).drop_first() =~= s.skip(i + 1));
                assert(upsert_obj(s.skip(i as int), r) == seq![s[i as int]] + upsert_obj(
                    s.skip(i + 1),
                    r,
                )) by {
                    lemma_obj_order(r, s[i as int]);
                }
                assert(s.subrange(0, i as int) + upsert_obj(s.skip(i as int), r) =~= s.subrange(
                    0,
                    i + 1,
                ) + upsert_obj(s.skip(i + 1), r));
            }
            i += 1;
        }
        proof {
            assert(s.skip(i as int).len() == n - i);
            if i < n {
                assert(s.skip(i as int)[0] == s[i as int]);
                assert(s.skip(i as int).drop_first() =~= s.skip(i + 1));
            }
        }
        if i < n {
            let row = &self.objects[i];
            let same = str_eq(row.bucket.as_str(), stamped.bucket.as_str()) && str_eq(
                row.key.as_str(),
                stamped.key.as_str(),
            );
            if same {
                proof {
                    assert(obj_same_key(r, s[i as int]));
                    lemma_obj_order(r, s[i as int]);
                    assert(upsert_obj(s.skip(i as int), r) == seq![r] + s.skip(i + 1));
                }
                self.objects.remove(i);
                self.objects.insert(i, stamped);
                proof {
                    assert(self.objects.deep_view() =~= s.subrange(0, i as int) + (seq![r] + s.skip(
                        i + 1,
                    )));
                    lemma_upsert_obj(s, r);
                }
            } else {
                proof {
                    lemma_obj_order(r, s[i as int]);
                    assert(obj_lt(r, s[i as int]));
                    assert(upsert_obj(s.skip(i as int), r) == seq![r] + s.skip(i as int));
                }
                self.objects.insert(i, stamped);
                proof {
                    assert(self.objects.deep_view() =~= s.subrange(0, i as int) + (seq![r] + s.skip(
                        i as int,
                    )));
                    lemma_upsert_obj(s, r);
                }
            }
        } else {
            proof {
                assert(s.skip(i as int) =~= Seq::<S3ItemDetailV>::empty());
                assert(upsert_obj(s.skip(i as int), r) == seq![r]);
            }
            self.objects.push(stamped);
            proof {
                assert(self.objects.deep_view() =~= s.subrange(0, i as int) + seq![r]);
                assert(s.subrange(0, i as int) =~= s);
                lemma_upsert_obj(s, r);
            }
        }
    }

    /// Exact lookup of one object row.
    pub fn get_s3_item_detail(&self, bucket: &str, key: &str) -> (r: Option<S3ItemDetail>)
        ensures
            match r {
                Some(row) => lookup_obj(self.objects_view(), bucket@, key@) == Some(row@),
                None => lookup_obj(self.objects_view(), bucket@, key@) is None,
            },
    {
        let ghost s = self.objects.deep_view();
        proof {
            assert(s.skip(0) =~= s);
        }
        let n: usize = self.objects.len();
        let mut i: usize = 0;
        while i < n
            invariant
                n == s.len(),
                0 <= i <= n,
                s == self.objects.deep_view(),
                s == self.objects_view(),
                lookup_obj(s, bucket@, key@) == lookup_obj(s.skip(i as int), bucket@, key@),
            decreases n - i,
        {
            let row = &self.objects[i];
            proof {
                assert(s.skip(i as int)[0] == s[i as int]);
                assert(s.skip(i as int).drop_first() =~= s.skip(i + 1));
            }
            if str_eq(row.bucket.as_str(), bucket) && str_eq(row.key.as_str(), key) {
                return Some(row.clone_row());
            }
            i += 1;
        }
        proof {
            assert(s.skip(i as int) =~= Seq::<S3ItemDetailV>::empty());
        }
        None
    }

    /// Prefix listing within a bucket: the rows of the bucket whose key
    /// starts with the filter, in ascending key order, capped at the query
    /// limit.
    pub fn get_s3_item_detail_with_filter(&self, bucket: &str, filter: &str) -> (r: Vec<
        S3ItemDetail,
    >)
        ensures
            r.deep_view() == query_capped(
                self.objects_view().filter(
                    |v: S3ItemDetailV| v.bucket == bucket@ && has_prefix(v.key, filter@),
                ),
            ),
    {
        let ghost s = self.objects.deep_view();
        let ghost pred = |v: S3ItemDetailV| v.bucket == bucket@ && has_prefix(v.key, filter@);
        let n: usize = self.objects.len();
        let mut out: Vec<S3ItemDetail> = Vec::new();
        proof {
            reveal(Seq::filter);
            assert(out.deep_view() =~= Seq::<S3ItemDetailV>::empty());
            assert(s.subrange(0, 0) =~= Seq::<S3ItemDetailV>::empty());
        }
        let mut i: usize = 0;
        while i < n
            invariant
                n == s.len(),
                0 <= i <= n,
                s == self.objects.deep_view(),
                s == self.objects_view(),
                pred == (|v: S3ItemDetailV| v.bucket == bucket@ && has_prefix(v.key, filter@)),
                out.deep_view() == s.subrange(0, i as int).filter(pred),
            decreases n - i,
        {
            let ghost oldout = out.deep_view();
            let row = &self.objects[i];
            let matched = str_eq(row.bucket.as_str(), bucket) && crate::strings::str_starts_with(
                row.key.as_str(),
                filter,
            );
            proof {
                reveal(Seq::filter);
                assert(s.subrange(0, i + 1).drop_last() =~= s.subrange(0, i as int));
                assert(s.subrange(0, i + 1).last() == s[i as int]);
            }
            if matched {
                out.push(row.clone_row());
                proof {
                    assert(out.deep_view() =~= oldout.push(s[i as int]));
                    assert(pred(s[i as int]));
                }
            } else {
                proof {
                    assert(!pred(s[i as int]));
                }
            }
            i += 1;
        }
        proof {
            assert(s.subrange(0, n as int) =~= s);
        }
        let ghost full = out.deep_view();
        if out.len() > MAX_QUERY_SIZE {
            out.truncate(MAX_QUERY_SIZE);
            proof {
                assert(out.deep_view() =~= full.subrange(0, MAX_QUERY_SIZE as int));
            }
        }
        out
    }

    /// The distinct buckets of the object table, in ascending order.
    #[verifier::rlimit(100)]
    pub fn get_all_buckets(&self) -> (r: Vec<String>)
        requires
            self.wf(),
        ensures
            forall|i: int|
                0 <= i < r.deep_view().len() - 1 ==> lex_lt(
                    #[trigger] r.deep_view()[i],
                    r.deep_view()[i + 1],
                ),
            forall|i: int|
                0 <= i < r.deep_view().len() ==> self.objects_view().map_values(
                    |v: S3ItemDetailV| v.bucket,
                ).contains(#[trigger] r.deep_view()[i]),
            forall|j: int|
                0 <= j < self.objects_view().len() ==> r.deep_view().contains(
                    (#[trigger] self.objects_view()[j]).bucket,
                ),
    {
        let ghost s = self.objects.deep_view();
        let n: usize = self.objects.len();
        let mut out: Vec<String> = Vec::new();
        let mut i: usize = 0;
        while i < n
            invariant
                n == s.len(),
                0 <= i <= n,
                s == self.objects.deep_view(),
                s == self.objects_view(),
                objects_sorted(s),
                forall|a: int|
                    0 <= a < out.deep_view().len() - 1 ==> lex_lt(
                        #[trigger] out.deep_view()[a],
                        out.deep_view()[a + 1],
                    ),
                forall|a: int|
                    0 <= a < out.deep_view().len() ==> s.map_values(
                        |v: S3ItemDetailV| v.bucket,
                    ).contains(#[trigger] out.deep_view()[a]),
                forall|j: int| 0 <= j < i ==> out.deep_view().contains((#[trigger] s[j]).bucket),
                i > 0 ==> out.deep_view().len() > 0 && out.deep_view().last() == s[i - 1].bucket,
                i == 0 ==> out.deep_view().len() == 0,
            decreases n - i,
        {
            let ghost oldout = out.deep_view();
            let row = &self.objects[i];
            let push_it = if out.len() == 0 {
                true
            } else {
                !str_eq(out[out.len() - 1].as_str(), row.bucket.as_str())
            };
            if push_it {
                out.push(row.bucket.clone());
                proof {
                    assert(out.deep_view() =~= oldout.push(s[i as int].bucket));
                    assert(s.map_values(|v: S3ItemDetailV| v.bucket)[i as int] == s[i
                        as int].bucket);
                    assert(s.map_values(|v: S3ItemDetailV| v.bucket).contains(s[i as int].bucket));
                    if i > 0 {
                        assert(obj_lt(s[i - 1], s[i as int]));
                        lemma_lex_trichotomy(s[i - 1].bucket, s[i as int].bucket);
                        assert(lex_lt(oldout.last(), s[i as int].bucket));
                    }
                    assert forall|a: int| 0 <= a < out.deep_view().len() - 1 implies lex_lt(
                        #[trigger] out.deep_view()[a],
                        out.deep_view()[a + 1],
                    ) by {
                        if a < oldout.len() - 1 {
                            assert(out.deep_view()[a] == oldout[a]);
                            assert(out.deep_view()[a + 1] == oldout[a + 1]);
                        }
                    }
                    assert forall|j: int| 0 <= j < i + 1 implies out.deep_view().contains(
                        (#[trigger] s[j]).bucket,
                    ) by {
                        if j < i {
                            assert(oldout.contains(s[j].bucket));
                            let w = choose|w: int| 0 <= w < oldout.len() && oldout[w] == s[j].bucket;
                            assert(out.deep_view()[w] == s[j].bucket);
                        } else {
                            assert(out.deep_view().last() == s[j].bucket);
                        }
                    }
                }
            } else {
                proof {
                    assert(out.deep_view().last() == s[i - 1].bucket);
                    assert(s[i as int].bucket == s[i - 1].bucket);
                    assert forall|j: int| 0 <= j < i + 1 implies out.deep_view().contains(
                        (#[trigger] s[j]).bucket,
                    ) by {
                        if j == i {
                            assert(out.deep_view().contains(out.deep_view().last()));
                        }
                    }
                }
            }
            i += 1;
        }
        out
    }

    /// Inserts or replaces the upload row of its upload ID, stamping its
    /// modification time.
    pub fn save_multipart_upload(&mut self, upload: MultipartUpload, now: i64)
        requires
            old(self).wf(),
        ensures
            final(self).wf(),
            lookup_upload(
                final(self).uploads_view(),
                upload@.upload_id,
            ) == Some(MultipartUploadV { last_modified: now as int, ..upload@ }),
            forall|u: Seq<char>|
                u != upload@.upload_id ==> #[trigger] lookup_upload(final(self).uploads_view(), u)
                    == lookup_upload(old(self).uploads_view(), u),
            forall|i: int|
                0 <= i < final(self).uploads_view().len()
                    ==> #[trigger] final(self).uploads_view()[i]
                    == (MultipartUploadV { last_modified: now as int, ..upload@ })
                    || old(self).uploads_view().contains(final(self).uploads_view()[i]),
            final(self).objects_view() == old(self).objects_view(),
            final(self).parts_view() == old(self).parts_view(),
    {
        let stamped = MultipartUpload { last_modified: now, ..upload };
        let ghost r = stamped@;
        let ghost s = self.uploads.deep_view();
        let n: usize = self.uploads.len();
        let mut i: usize = 0;
        let mut found: bool = false;
        let mut at: usize = 0;
        while i < n
            invariant
                n == s.len(),
                0 <= i <= n,
                s == self.uploads.deep_view(),
                s == old(self).uploads_view(),
                self.objects.deep_view() == old(self).objects_view(),
                self.parts.deep_view() == old(self).parts_view(),
                r == (MultipartUploadV { last_modified: now as int, ..upload@ }),
                r == stamped@,
                uploads_unique(s),
                found ==> 0 <= at < i && s[at as int].upload_id == r.upload_id,
                !found ==> forall|j: int| 0 <= j < i ==> (#[trigger] s[j]).upload_id != r.upload_id,
            decreases n - i,
        {
            if !found {
                if str_eq(self.uploads[i].upload_id.as_str(), stamped.upload_id.as_str()) {
                    found = true;
                    at = i;
                }
            }
            i += 1;
        }
        if found {
            self.uploads.remove(at);
            proof {
                assert(self.uploads.deep_view() =~= s.remove(at as int));
                lemma_upload_remove(s, at as int);
                lemma_lookup_upload_contains(s.remove(at as int), r.upload_id);
            }
            let ghost s2 = self.uploads.deep_view();
            self.uploads.push(stamped);
            proof {
                assert(self.uploads.deep_view() =~= s2.push(r));
                lemma_lookup_upload_push(s2, r);
                assert(uploads_unique(s2.push(r))) by {
                    lemma_lookup_upload_contains(s2, r.upload_id);
                    assert(forall|j: int|
                        0 <= j < s2.len() ==> s2.push(r)[j] == #[trigger] s2[j]);
                    assert forall|a: int, b: int| 0 <= a < b < s2.push(r).len() implies (
                    #[trigger] s2.push(r)[a]).upload_id != (#[trigger] s2.push(r)[b]).upload_id by {
                        if b == s2.len() {
                            assert(s2.push(r)[a] == s2[a]);
                        }
                    }
                }
                assert forall|k: int| 0 <= k < self.uploads.deep_view().len() implies #[trigger] self.uploads.deep_view()[k]
                    == r || old(self).uploads_view().contains(self.uploads.deep_view()[k]) by {
                    if k < s2.len() {
                        assert(self.uploads.deep_view()[k] == s2[k]);
                        let sk = if k < at as int { k } else { k + 1 };
                        assert(s2[k] == s[sk]);
                        assert(old(self).uploads_view().contains(s[sk]));
                    }
                }
            }
        } else {
            proof {
                lemma_lookup_upload_contains(s, r.upload_id);
            }
            self.uploads.push(stamped);
            proof {
                assert(self.uploads.deep_view() =~= s.push(r));
                lemma_lookup_upload_push(s, r);
                assert(uploads_unique(s.push(r))) by {
                    assert(forall|j: int| 0 <= j < s.len() ==> s.push(r)[j] == #[trigger] s[j]);
                    assert forall|a: int, b: int| 0 <= a < b < s.push(r).len() implies (
                    #[trigger] s.push(r)[a]).upload_id != (#[trigger] s.push(r)[b]).upload_id by {
                        if b == s.len() {
                            assert(s.push(r)[a] == s[a]);
                        }
                    }
                }
                assert forall|k: int| 0 <= k < self.uploads.deep_view().len() implies #[trigger] self.uploads.deep_view()[k]
                    == r || old(self).uploads_view().contains(self.uploads.deep_view()[k]) by {
                    if k < s.len() {
                        assert(self.uploads.deep_view()[k] == s[k]);
                        assert(old(self).uploads_view().contains(s[k]));
                    }
                }
            }
        }
    }

    /// Exact lookup of one upload row.
    pub fn get_multipart_upload_by_upload_id(&self, upload_id: &str) -> (r: Option<MultipartUpload>)
        ensures
            match r {
                Some(row) => lookup_upload(self.uploads_view(), upload_id@) == Some(row@),
                None => lookup_upload(self.uploads_view(), upload_id@) is None,
            },
    {
        let ghost s = self.uploads.deep_view();
        proof {
            assert(s.skip(0) =~= s);
        }
        let n: usize = self.uploads.len();
        let mut i: usize = 0;
        while i < n
            invariant
                n == s.len(),
                0 <= i <= n,
                s == self.uploads.deep_view(),
                s == self.uploads_view(),
                lookup_upload(s, upload_id@) == lookup_upload(s.skip(i as int), upload_id@),
            decreases n - i,
        {
            proof {
                assert(s.skip(i as int)[0] == s[i as int]);
                assert(s.skip(i as int).drop_first() =~= s.skip(i + 1));
            }
            if str_eq(self.uploads[i].upload_id.as_str(), upload_id) {
                return Some(self.uploads[i].clone_row());
            }
            i += 1;
        }
        proof {
            assert(s.skip(i as int) =~= Seq::<MultipartUploadV>::empty());
        }
        None
    }

    /// The access key bound to an upload ID, if the upload exists.
    pub fn get_access_key_by_upload_id(&self, upload_id: &str) -> (r: Option<String>)
        ensures
            match r {
                Some(ak) => match lookup_upload(self.uploads_view(), upload_id@) {
                    Some(v) => v.access_key == ak@,
                    None => false,
                },
                None => lookup_upload(self.uploads_view(), upload_id@) is None,
            },
    {
        match self.get_multipart_upload_by_upload_id(upload_id) {
            Some(row) => Some(row.access_key),
            None => None,
        }
    }

    /// Removes an upload row and all its parts.
    pub fn delete_multipart_upload_by_upload_id(&mut self, upload_id: &str)
        requires
            old(self).wf(),
        ensures
            final(self).wf(),
            final(self).uploads_view() == old(self).uploads_view().filter(
                |u: MultipartUploadV| u.upload_id != upload_id@,
            ),
            final(self).parts_view() == old(self).parts_view().filter(
                |p: MultipartUploadPartV| p.upload_id != upload_id@,
            ),
            final(self).objects_view() == old(self).objects_view(),
    {
        let ghost su = self.uploads.deep_view();
        let ghost sp = self.parts.deep_view();
        let ghost updred = |u: MultipartUploadV| u.upload_id != upload_id@;
        let ghost ppred = |p: MultipartUploadPartV| p.upload_id != upload_id@;
        let n: usize = self.uploads.len();
        let mut keep: Vec<MultipartUpload> = Vec::new();
        proof {
            reveal(Seq::filter);
            assert(keep.deep_view() =~= Seq::<MultipartUploadV>::empty());
            assert(su.subrange(0, 0) =~= Seq::<MultipartUploadV>::empty());
        }
        let mut i: usize = 0;
        while i < n
            invariant
                n == su.len(),
                0 <= i <= n,
                su == self.uploads.deep_view(),
                updred == (|u: MultipartUploadV| u.upload_id != upload_id@),
                keep.deep_view() == su.subrange(0, i as int).filter(updred),
            decreases n - i,
        {
            let ghost oldkeep = keep.deep_view();
            proof {
                reveal(Seq::filter);
                assert(su.subrange(0, i + 1).drop_last() =~= su.subrange(0, i as int));
                assert(su.subrange(0, i + 1).last() == su[i as int]);
            }
            if !str_eq(self.uploads[i].upload_id.as_str(), upload_id) {
                keep.push(self.uploads[i].clone_row());
                proof {
                    assert(keep.deep_view() =~= oldkeep.push(su[i as int]));
                    assert(updred(su[i as int]));
                }
            } else {
                proof {
                    assert(!updred(su[i as int]));
                }
            }
            i += 1;
        }
        proof {
            assert(su.subrange(0, n as int) =~= su);
        }
        self.uploads = keep;
        let m: usize = self.parts.len();
        let mut keepp: Vec<MultipartUploadPart> = Vec::new();
        proof {
            reveal(Seq::filter);
            assert(keepp.deep_view() =~= Seq::<MultipartUploadPartV>::empty());
            assert(sp.subrange(0, 0) =~= Seq::<MultipartUploadPartV>::empty());
        }
        let mut j: usize = 0;
        while j < m
            invariant
                m == sp.len(),
                0 <= j <= m,
                sp == self.parts.deep_view(),
                ppred == (|p: MultipartUploadPartV| p.upload_id != upload_id@),
                keepp.deep_view() == sp.subrange(0, j as int).filter(ppred),
            decreases m - j,
        {
            let ghost oldkeep = keepp.deep_view();
            proof {
                reveal(Seq::filter);
                assert(sp.subrange(0, j + 1).drop_last() =~= sp.subrange(0, j as int));
                assert(sp.subrange(0, j + 1).last() == sp[j as int]);
            }
            if !str_eq(self.parts[j].upload_id.as_str(), upload_id) {
                keepp.push(self.parts[j].clone_row());
                proof {
                    assert(keepp.deep_view() =~= oldkeep.push(sp[j as int]));
                    assert(ppred(sp[j as int]));
                }
            } else {
                proof {
                    assert(!ppred(sp[j as int]));
                }
            }
            j += 1;
        }
        proof {
            assert(sp.subrange(0, m as int) =~= sp);
        }
        self.parts = keepp;
        proof {
            lemma_filter_sorted_parts(sp, ppred);
            assert(uploads_unique(su.filter(updred))) by {
                lemma_filter_unique_uploads(su, updred);
            }
        }
    }

    /// Inserts or replaces the part row of `(upload_id, part_number)`,
    /// stamping its modification time.
    pub fn save_multipart_upload_part(&mut self, part: MultipartUploadPart, now: i64)
        requires
            old(self).wf(),
        ensures
            final(self).wf(),
            final(self).parts_view() == upsert_part(
                old(self).parts_view(),
                MultipartUploadPartV { last_modified: now as int, ..part@ },
            ),
            final(self).objects_view() == old(self).objects_view(),
            final(self).uploads_view() == old(self).uploads_view(),
    {
        let stamped = MultipartUploadPart { last_modified: now, ..part };
        let ghost r = stamped@;
        let ghost s = self.parts.deep_view();
        proof {
            assert(s.skip(0) =~= s);
            assert(s.subrange(0, 0) + upsert_part(s, r) =~= upsert_part(s, r));
        }
        let n: usize = self.parts.len();
        let mut i: usize = 0;
        while i < n
            invariant
                n == s.len(),
                0 <= i <= n,
                s == self.parts.deep_view(),
                s == old(self).parts_view(),
                self.objects.deep_view() == old(self).objects_view(),
                self.uploads.deep_view() == old(self).uploads_view(),
                r == (MultipartUploadPartV { last_modified: now as int, ..part@ }),
                r == stamped@,
                parts_sorted(s),
                upsert_part(s, r) == s.subrange(0, i as int) + upsert_part(s.skip(i as int), r),
                forall|j: int| 0 <= j < i ==> part_lt(#[trigger] s[j], r),
            ensures
                s == self.parts.deep_view(),
                s == old(self).parts_view(),
                self.objects.deep_view() == old(self).objects_view(),
                self.uploads.deep_view() == old(self).uploads_view(),
                r == (MultipartUploadPartV { last_modified: now as int, ..part@ }),
                r == stamped@,
                0 <= i <= n,
                n == s.len(),
                parts_sorted(s),
                upsert_part(s, r) == s.subrange(0, i as int) + upsert_part(s.skip(i as int), r),
                i < n ==> !part_exec_lt_v(s[i as int], r),
            decreases n - i,
        {
            let row = &self.parts[i];
            let is_lt = part_row_lt(row, &stamped);
            if !is_lt {
                break;
            }
            proof {
                assert(s.skip(i as int)[0] == s[i as int]);
                assert(s.skip(i as int).drop_first() =~= s.skip(i + 1));
                assert(upsert_part(s.skip(i as int), r) == seq![s[i as int]] + upsert_part(
                    s.skip(i + 1),
                    r,
                )) by {
                    lemma_part_order(r, s[i as int]);
                }
                assert(s.subrange(0, i as int) + upsert_part(s.skip(i as int), r) =~= s.subrange(
                    0,
                    i + 1,
                ) + upsert_part(s.skip(i + 1), r));
            }
            i += 1;
        }
        proof {
            assert(s.skip(i as int).len() == n - i);
            if i < n {
                assert(s.skip(i as int)[0] == s[i as int]);
                assert(s.skip(i as int).drop_first() =~= s.skip(i + 1));
            }
        }
        if i < n {
            let row = &self.parts[i];
            let same = str_eq(row.upload_id.as_str(), stamped.upload_id.as_str())
                && row.part_number == stamped.part_number;
            if same {
                proof {
                    assert(part_same_key(r, s[i as int]));
                    lemma_part_order(r, s[i as int]);
                    assert(upsert_part(s.skip(i as int), r) == seq![r] + s.skip(i + 1));
                }
                self.parts.remove(i);
                self.parts.insert(i, stamped);
                proof {
                    assert(self.parts.deep_view() =~= s.subrange(0, i as int) + (seq![r] + s.skip(
                        i + 1,
                    )));
                    lemma_upsert_part(s, r);
                }
            } else {
                proof {
                    lemma_part_order(r, s[i as int]);
                    assert(part_lt(r, s[i as int]));
                    assert(upsert_part(s.skip(i as int), r) == seq![r] + s.skip(i as int));
                }
                self.parts.insert(i, stamped);
                proof {
                    assert(self.parts.deep_view() =~= s.subrange(0, i as int) + (seq![r] + s.skip(
                        i as int,
                    )));
                    lemma_upsert_part(s, r);
                }
            }
        } else {
            proof {
                assert(s.skip(i as int) =~= Seq::<MultipartUploadPartV>::empty());
                assert(upsert_part(s.skip(i as int), r) == seq![r]);
            }
            self.parts.push(stamped);
            proof {
                assert(self.parts.deep_view() =~= s.subrange(0, i as int) + seq![r]);
                assert(s.subrange(0, i as int) =~= s);
                lemma_upsert_part(s, r);
            }
        }
    }

    /// All parts of one upload, in ascending part number order, capped at
    /// the query limit.
    pub fn get_parts_by_upload_id(&self, upload_id: &str) -> (r: Vec<MultipartUploadPart>)
        ensures
            r.deep_view() == query_capped(
                self.parts_view().filter(
                    |p: MultipartUploadPartV| p.upload_id == upload_id@,
                ),
            ),
    {
        let mut out = self.parts_of_upload(upload_id);
        let ghost full = out.deep_view();
        if out.len() > MAX_QUERY_SIZE {
            out.truncate(MAX_QUERY_SIZE);
            proof {
                assert(out.deep_view() =~= full.subrange(0, MAX_QUERY_SIZE as int));
            }
        }
        out
    }

    /// Every part of one upload, in ascending part number order, without the
    /// query cap: completion and abort consume the full set.
    pub fn parts_of_upload(&self, upload_id: &str) -> (r: Vec<MultipartUploadPart>)
        ensures
            r.deep_view() == self.parts_view().filter(
                |p: MultipartUploadPartV| p.upload_id == upload_id@,
            ),
    {
        let ghost s = self.parts.deep_view();
        let ghost pred = |p: MultipartUploadPartV| p.upload_id == upload_id@;
        let n: usize = self.parts.len();
        let mut out: Vec<MultipartUploadPart> = Vec::new();
        proof {
            reveal(Seq::filter);
            assert(out.deep_view() =~= Seq::<MultipartUploadPartV>::empty());
            assert(s.subrange(0, 0) =~= Seq::<MultipartUploadPartV>::empty());
        }
        let mut i: usize = 0;
        while i < n
            invariant
                n == s.len(),
                0 <= i <= n,
                s == self.parts.deep_view(),
                s == self.parts_view(),
                pred == (|p: MultipartUploadPartV| p.upload_id == upload_id@),
                out.deep_view() == s.subrange(0, i as int).filter(pred),
            decreases n - i,
        {
            let ghost oldout = out.deep_view();
            proof {
                reveal(Seq::filter);
                assert(s.subrange(0, i + 1).drop_last() =~= s.subrange(0, i as int));
                assert(s.subrange(0, i + 1).last() == s[i as int]);
            }
            if str_eq(self.parts[i].upload_id.as_str(), upload_id) {
                out.push(self.parts[i].clone_row());
                proof {
                    assert(out.deep_view() =~= oldout.push(s[i as int]));
                    assert(pred(s[i as int]));
                }
            } else {
                proof {
                    assert(!pred(s[i as int]));
                }
            }
            i += 1;
        }
        proof {
            assert(s.subrange(0, n as int) =~= s);
        }
        out
    }
}

/// Filtering keeps upload IDs unique.
pub proof fn lemma_filter_unique_uploads(s: Seq<MultipartUploadV>, pred: spec_fn(MultipartUploadV) -> bool)
    requires
        uploads_unique(s),
    ensures
        uploads_unique(s.filter(pred)),
        forall|i: int| 0 <= i < s.filter(pred).len() ==> s.contains(#[trigger] s.filter(pred)[i]),
    decreases s.len(),
{
    reveal(Seq::filter);
    if s.len() > 0 {
        assert(uploads_unique(s.drop_last())) by {
            assert(forall|i: int|
                0 <= i < s.drop_last().len() ==> s.drop_last()[i] == #[trigger] s[i]);
        }
        lemma_filter_unique_uploads(s.drop_last(), pred);
        let sub = s.drop_last().filter(pred);
        assert forall|i: int| 0 <= i < sub.len() implies s.contains(#[trigger] sub[i]) by {
            let w = choose|w: int| 0 <= w < s.drop_last().len() && s.drop_last()[w] == sub[i];
            assert(s[w] == sub[i]);
        }
        if pred(s.last()) {
            let t = sub.push(s.last());
            assert(s.contains(s.last()));
            assert(uploads_unique(t)) by {
                assert forall|a: int, b: int| 0 <= a < b < t.len() implies (
                #[trigger] t[a]).upload_id != (#[trigger] t[b]).upload_id by {
                    if b == t.len() - 1 {
                        assert(t[a] == sub[a]);
                        let w = choose|w: int|
                            0 <= w < s.drop_last().len() && s.drop_last()[w] == sub[a];
                        assert(s[w] == sub[a]);
                        assert(s[w].upload_id != s[s.len() - 1].upload_id);
                    } else {
                        assert(t[a] == sub[a] && t[b] == sub[b]);
                    }
                }
            }
        }
    }
}

/// Whether one row sorts strictly below another, at the ghost level.
pub open spec fn obj_exec_lt_v(a: S3ItemDetailV, b: S3ItemDetailV) -> bool {
    obj_lt(a, b)
}

/// Compares two object rows by `(bucket, key)`.
fn obj_row_lt(a: &S3ItemDetail, b: &S3ItemDetail) -> (r: bool)
    ensures
        r == obj_lt(a@, b@),
{
    if str_lex_lt(a.bucket.as_str(), b.bucket.as_str()) {
        true
    } else if str_eq(a.bucket.as_str(), b.bucket.as_str()) {
        str_lex_lt(a.key.as_str(), b.key.as_str())
    } else {
        false
    }
}

/// Whether one part row sorts strictly below another, at the ghost level.
pub open spec fn part_exec_lt_v(a: MultipartUploadPartV, b: MultipartUploadPartV) -> bool {
    part_lt(a, b)
}

/// Compares two part rows by `(upload_id, part_number)`.
fn part_row_lt(a: &MultipartUploadPart, b: &MultipartUploadPart) -> (r: bool)
    ensures
        r == part_lt(a@, b@),
{
    if str_lex_lt(a.upload_id.as_str(), b.upload_id.as_str()) {
        true
    } else if str_eq(a.upload_id.as_str(), b.upload_id.as_str()) {
        a.part_number < b.part_number
    } else {
        false
    }
}


} // verus!
