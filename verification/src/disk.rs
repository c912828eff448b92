use vstd::prelude::*;

use crate::strings::{has_prefix, has_suffix, contains_seq, str_contains, str_eq, str_starts_with, str_ends_with, push_str};

verus! {

/// The mathematical map described by a sequence of path/content pairs;
/// later pairs win.
pub open spec fn files_map_of(s: Seq<(Seq<char>, Seq<u8>)>) -> Map<Seq<char>, Seq<u8>>
    decreases s.len(),
{
    if s.len() == 0 {
        Map::<Seq<char>, Seq<u8>>::empty()
    } else {
        files_map_of(s.drop_last()).insert(s.last().0, s.last().1)
    }
}

/// Whether the paths of a pair sequence are pairwise distinct.
pub open spec fn paths_distinct(s: Seq<(Seq<char>, Seq<u8>)>) -> bool {
    forall|i: int, j: int| 0 <= i < j < s.len() ==> (#[trigger] s[i]).0 != (#[trigger] s[j]).0
}

/// A path is in the map exactly when some pair holds it.
pub proof fn lemma_files_map_domain(s: Seq<(Seq<char>, Seq<u8>)>, p: Seq<char>)
    ensures
        files_map_of(s).contains_key(p) <==> exists|i: int| 0 <= i < s.len() && (#[trigger] s[i]).0
            == p,
    decreases s.len(),
{
    if s.len() > 0 {
        lemma_files_map_domain(s.drop_last(), p);
        if files_map_of(s).contains_key(p) {
            if s.last().0 == p {
                assert((s[s.len() - 1]).0 == p);
            } else {
                let i = choose|i: int|
                    0 <= i < s.drop_last().len() && (#[trigger] s.drop_last()[i]).0 == p;
                assert((s[i]).0 == p);
            }
        }
        if exists|i: int| 0 <= i < s.len() && (#[trigger] s[i]).0 == p {
            let i = choose|i: int| 0 <= i < s.len() && (#[trigger] s[i]).0 == p;
            if i < s.len() - 1 {
                assert((s.drop_last()[i]).0 == p);
            }
        }
    }
}

/// With distinct paths, the pair holding a path gives its content in the map.
pub proof fn lemma_files_map_index(s: Seq<(Seq<char>, Seq<u8>)>, i: int)
    requires
        paths_distinct(s),
        0 <= i < s.len(),
    ensures
        files_map_of(s).contains_key(s[i].0),
        files_map_of(s)[s[i].0] == s[i].1,
    decreases s.len(),
{
    if i == s.len() - 1 {
        lemma_files_map_domain(s, s[i].0);
    } else {
        assert(paths_distinct(s.drop_last()));
        lemma_files_map_index(s.drop_last(), i);
        assert(s.drop_last()[i] == s[i]);
        assert(s[i].0 != s.last().0);
    }
}

/// The state of the root directory: the regular files under it, by absolute
/// path, and the directories that have been created.
pub struct Disk {
    files: Vec<(String, Vec<u8>)>,
    dirs: Vec<String>,
}

impl Disk {
    /// The file entries, in creation order.
    pub closed spec fn files_entries(&self) -> Seq<(Seq<char>, Seq<u8>)> {
        Seq::new(
            self.files@.len(),
            |i: int| (self.files@[i].0@, self.files@[i].1@),
        )
    }

    /// The files under the root: a map from absolute path to content.
    pub open spec fn files(&self) -> Map<Seq<char>, Seq<u8>> {
        files_map_of(self.files_entries())
    }

    /// The directories that have been created explicitly.
    pub closed spec fn dirs(&self) -> Seq<Seq<char>> {
        Seq::new(self.dirs@.len(), |i: int| self.dirs@[i]@)
    }

    /// File paths are pairwise distinct.
    pub open spec fn wf(&self) -> bool {
        paths_distinct(self.files_entries())
    }

    /// Whether a directory exists at a path: created explicitly, or implied
    /// as an ancestor of a created directory or of a stored file.
    pub open spec fn spec_dir_exists(&self, d: Seq<char>) -> bool {
        ||| self.dirs().contains(d)
        ||| exists|i: int|
            0 <= i < self.dirs().len() && has_prefix(#[trigger] self.dirs()[i], d + seq!['/'])
        ||| exists|p: Seq<char>| #[trigger]
            self.files().contains_key(p) && has_prefix(p, d + seq!['/'])
    }

    /// Whether anything exists at a path: a file or a directory.
    pub open spec fn spec_path_exists(&self, p: Seq<char>) -> bool {
        self.files().contains_key(p) || self.spec_dir_exists(p)
    }

    /// An empty root directory.
    pub fn new() -> (r: Disk)
        ensures
            r.wf(),
            r.files() == Map::<Seq<char>, Seq<u8>>::empty(),
            r.dirs() == Seq::<Seq<char>>::empty(),
            r.files_entries() == Seq::<(Seq<char>, Seq<u8>)>::empty(),
    {
        let r = Disk { files: Vec::new(), dirs: Vec::new() };
        proof {
            assert(r.files_entries() =~= Seq::<(Seq<char>, Seq<u8>)>::empty());
            assert(r.dirs() =~= Seq::<Seq<char>>::empty());
        }
        r
    }

    /// Reads the content of a file.
    pub fn read(&self, path: &str) -> (r: Option<&Vec<u8>>)
        requires
            self.wf(),
        ensures
            match r {
                Some(data) => self.files().contains_key(path@) && self.files()[path@] == data@,
                None => !self.files().contains_key(path@),
            },
    {
        let n: usize = self.files.len();
        let mut i: usize = 0;
        while i < n
            invariant
                n == self.files_entries().len(),
                0 <= i <= n,
                self.wf(),
                forall|j: int| 0 <= j < i ==> (#[trigger] self.files_entries()[j]).0 != path@,
            decreases n - i,
        {
            if str_eq(self.files[i].0.as_str(), path) {
                proof {
                    lemma_files_map_index(self.files_entries(), i as int);
                }
                return Some(&self.files[i].1);
            }
            i += 1;
        }
        proof {
            lemma_files_map_domain(self.files_entries(), path@);
        }
        None
    }

    /// Whether a regular file exists at a path.
    pub fn file_exists(&self, path: &str) -> (r: bool)
        requires
            self.wf(),
        ensures
            r == self.files().contains_key(path@),
    {
        self.read(path).is_some()
    }

    /// Writes a file atomically: the content at the path is replaced as a
    /// whole, or created.
    pub fn write(&mut self, path: String, data: Vec<u8>)
        requires
            old(self).wf(),
        ensures
            final(self).wf(),
            final(self).files() == old(self).files().insert(path@, data@),
            final(self).dirs() == old(self).dirs(),
    {
        let ghost oldview = self.files_entries();
        let n: usize = self.files.len();
        let mut i: usize = 0;
        while i < n
            invariant
                n == self.files_entries().len(),
                0 <= i <= n,
                self.wf(),
                self.files_entries() == oldview,
                oldview == old(self).files_entries(),
                self.dirs@ == old(self).dirs@,
                forall|j: int| 0 <= j < i ==> (#[trigger] self.files_entries()[j]).0 != path@,
            decreases n - i,
        {
            if str_eq(self.files[i].0.as_str(), path.as_str()) {
                let ghost pp = path@;
                let ghost dd = data@;
                proof {
                    assert(oldview[i as int].0 == pp);
                }
                self.files.remove(i);
                self.files.insert(i, (path, data));
                proof {
                    let newview = self.files_entries();
                    assert(newview[i as int] == (pp, dd));
                    assert(newview =~= oldview.update(i as int, (pp, dd)));
                    assert(paths_distinct(newview)) by {
                        assert(newview[i as int].0 == oldview[i as int].0);
                        assert(forall|j: int|
                            0 <= j < newview.len() && j != i ==> newview[j] == #[trigger] oldview[j]);
                    }
                    lemma_files_update_map(oldview, i as int, dd);
                    assert(oldview.update(i as int, (oldview[i as int].0, dd)) =~= oldview.update(
                        i as int,
                        (pp, dd),
                    ));
                }
                return ;
            }
            i += 1;
        }
        let ghost pp = path@;
        let ghost dd = data@;
        self.files.push((path, data));
        proof {
            assert(self.files_entries() =~= oldview.push((pp, dd)));
            assert(self.files_entries().drop_last() =~= oldview);
            assert(paths_distinct(self.files_entries())) by {
                assert(forall|j: int|
                    0 <= j < oldview.len() ==> self.files_entries()[j] == #[trigger] oldview[j]);
            }
        }
    }

    /// Removes the file at a path, if present.
    pub fn remove_file(&mut self, path: &str)
        requires
            old(self).wf(),
        ensures
            final(self).wf(),
            final(self).files() == old(self).files().remove(path@),
            final(self).dirs() == old(self).dirs(),
    {
        let ghost oldview = self.files_entries();
        let ghost pred = |e: (Seq<char>, Seq<u8>)| e.0 != path@;
        let n: usize = self.files.len();
        let mut keep: Vec<(String, Vec<u8>)> = Vec::new();
        let mut i: usize = 0;
        let ghost target = path@;
        while i < n
            invariant
                n == oldview.len(),
                0 <= i <= n,
                self.files_entries() == oldview,
                oldview == old(self).files_entries(),
                self.dirs@ == old(self).dirs@,
                target == path@,
                paths_distinct(oldview),
                keep_entries(keep) == oldview.subrange(0, i as int).filter(pred),
                pred == (|e: (Seq<char>, Seq<u8>)| e.0 != path@),
            decreases n - i,
        {
            let ghost oldkeep = keep_entries(keep);
            proof {
                reveal(Seq::filter);
                assert(oldview.subrange(0, i + 1).drop_last() =~= oldview.subrange(0, i as int));
                assert(oldview.subrange(0, i + 1).last() == oldview[i as int]);
            }
            if !str_eq(self.files[i].0.as_str(), path) {
                let entry = (self.files[i].0.clone(), clone_bytes(&self.files[i].1));
                let ghost ev = (entry.0@, entry.1@);
                keep.push(entry);
                proof {
                    assert(keep_entries(keep) =~= oldkeep.push(ev));
                    assert(ev == oldview[i as int]);
                    assert(pred(oldview[i as int]));
                }
            } else {
                proof {
                    assert(!pred(oldview[i as int]));
                }
            }
            i += 1;
        }
        proof {
            assert(oldview.subrange(0, n as int) =~= oldview);
        }
        self.files = keep;
        proof {
            assert(self.files_entries() == oldview.filter(pred));
            lemma_filter_distinct_paths(oldview, pred);
            lemma_filter_files_map_remove(oldview, target, pred);
        }
    }

    /// Records a directory (and, implicitly, its ancestors) as created.
    pub fn create_dir_all(&mut self, path: String)
        requires
            old(self).wf(),
        ensures
            final(self).wf(),
            final(self).files() == old(self).files(),
            final(self).dirs() == old(self).dirs().push(path@),
    {
        let ghost pp = path@;
        self.dirs.push(path);
        proof {
            assert(self.files_entries() =~= old(self).files_entries());
            assert(self.dirs() =~= old(self).dirs().push(pp));
        }
    }

    /// Whether a directory exists at a path.
    pub fn dir_exists(&self, d: &str) -> (r: bool)
        requires
            self.wf(),
        ensures
            r == self.spec_dir_exists(d@),
    {
        let mut dslash: String = d.to_owned();
        push_str(&mut dslash, "/");
        proof {
            reveal_strlit("/");
            assert(dslash@ =~= d@ + seq!['/']);
        }
        let n: usize = self.dirs.len();
        let mut i: usize = 0;
        while i < n
            invariant
                n == self.dirs().len(),
                0 <= i <= n,
                dslash@ == d@ + seq!['/'],
                forall|j: int|
                    0 <= j < i ==> !(#[trigger] self.dirs()[j] == d@) && !has_prefix(
                        self.dirs()[j],
                        d@ + seq!['/'],
                    ),
            decreases n - i,
        {
            if str_eq(self.dirs[i].as_str(), d) {
                proof {
                    assert(self.dirs()[i as int] == d@);
                    assert(self.dirs().contains(d@));
                }
                return true;
            }
            if str_starts_with(self.dirs[i].as_str(), dslash.as_str()) {
                proof {
                    assert(has_prefix(self.dirs()[i as int], d@ + seq!['/']));
                }
                return true;
            }
            i += 1;
        }
        let m: usize = self.files.len();
        let mut k: usize = 0;
        while k < m
            invariant
                m == self.files_entries().len(),
                0 <= k <= m,
                self.wf(),
                dslash@ == d@ + seq!['/'],
                forall|j: int|
                    0 <= j < k ==> !has_prefix(
                        (#[trigger] self.files_entries()[j]).0,
                        d@ + seq!['/'],
                    ),
                forall|j: int|
                    0 <= j < self.dirs().len() ==> !(#[trigger] self.dirs()[j] == d@) && !has_prefix(
                        self.dirs()[j],
                        d@ + seq!['/'],
                    ),
            decreases m - k,
        {
            if str_starts_with(self.files[k].0.as_str(), dslash.as_str()) {
                proof {
                    lemma_files_map_index(self.files_entries(), k as int);
                    assert(self.files().contains_key(self.files_entries()[k as int].0)
                        && has_prefix(self.files_entries()[k as int].0, d@ + seq!['/']));
                }
                return true;
            }
            k += 1;
        }
        proof {
            if self.spec_dir_exists(d@) {
                if self.dirs().contains(d@) {
                    let j = choose|j: int| 0 <= j < self.dirs().len() && self.dirs()[j] == d@;
                    assert(false);
                } else if exists|i: int|
                    0 <= i < self.dirs().len() && has_prefix(
                        #[trigger] self.dirs()[i],
                        d@ + seq!['/'],
                    ) {
                    let j = choose|j: int|
                        0 <= j < self.dirs().len() && has_prefix(
                            #[trigger] self.dirs()[j],
                            d@ + seq!['/'],
                        );
                    assert(false);
                } else {
                    let p = choose|p: Seq<char>| #[trigger]
                        self.files().contains_key(p) && has_prefix(p, d@ + seq!['/']);
                    lemma_files_map_domain(self.files_entries(), p);
                    let w = choose|w: int|
                        0 <= w < self.files_entries().len() && (#[trigger] self.files_entries()[w]).0
                            == p;
                    assert(!has_prefix(self.files_entries()[w].0, d@ + seq!['/']));
                    assert(false);
                }
            }
        }
        false
    }

    /// Whether anything exists at a path.
    pub fn path_exists(&self, p: &str) -> (r: bool)
        requires
            self.wf(),
        ensures
            r == self.spec_path_exists(p@),
    {
        self.file_exists(p) || self.dir_exists(p)
    }

    /// Removes every leftover stage file: a file directly under the root
    /// whose name starts with the stage prefix and ends with the stage
    /// suffix.
    pub fn sweep_tmp_files(&mut self, root: &str)
        requires
            old(self).wf(),
        ensures
            final(self).wf(),
            final(self).files_entries() == old(self).files_entries().filter(
                (|e: (Seq<char>, Seq<u8>)| !is_tmp_path(root@, e.0)),
            ),
            final(self).dirs() == old(self).dirs(),
            forall|p: Seq<char>|
                #[trigger] final(self).files().contains_key(p) <==> old(
                    self,
                ).files().contains_key(p) && !is_tmp_path(root@, p),
            forall|p: Seq<char>|
                final(self).files().contains_key(p) ==> #[trigger] final(self).files()[p] == old(
                    self,
                ).files()[p],
    {
        let ghost oldview = self.files_entries();
        let ghost pred = (|e: (Seq<char>, Seq<u8>)| !is_tmp_path(root@, e.0));
        let mut prefix: String = root.to_owned();
        push_str(&mut prefix, "/.tmp.");
        proof {
            reveal_strlit("/.tmp.");
            assert(prefix@ =~= root@ + "/.tmp."@);
        }
        let n: usize = self.files.len();
        let mut keep: Vec<(String, Vec<u8>)> = Vec::new();
        let mut i: usize = 0;
        while i < n
            invariant
                n == oldview.len(),
                0 <= i <= n,
                self.files_entries() == oldview,
                oldview == old(self).files_entries(),
                self.dirs@ == old(self).dirs@,
                prefix@ == root@ + "/.tmp."@,
                paths_distinct(oldview),
                keep_entries(keep) == oldview.subrange(0, i as int).filter(pred),
                pred == (|e: (Seq<char>, Seq<u8>)| !is_tmp_path(root@, e.0)),
            decreases n - i,
        {
            let ghost oldkeep = keep_entries(keep);
            proof {
                reveal(Seq::filter);
                assert(oldview.subrange(0, i + 1).drop_last() =~= oldview.subrange(0, i as int));
                assert(oldview.subrange(0, i + 1).last() == oldview[i as int]);
            }
            let name = &self.files[i].0;
            let shaped = str_starts_with(name.as_str(), prefix.as_str()) && str_ends_with(
                name.as_str(),
                ".internal.part",
            );
            let is_tmp = if shaped {
                let rlen: usize = root.unicode_len();
                let nlen: usize = name.unicode_len();
                proof {
                    reveal_strlit("/.tmp.");
                    assert(prefix@.len() == root@.len() + 6);
                    assert(name@.len() >= root@.len() + 6);
                    assert(rlen + 1 <= nlen);
                }
                !tail_has_sep(name.as_str(), rlen + 1)
            } else {
                false
            };
            proof {
                assert(is_tmp == is_tmp_path(root@, oldview[i as int].0));
            }
            if !is_tmp {
                let entry = (self.files[i].0.clone(), clone_bytes(&self.files[i].1));
                let ghost ev = (entry.0@, entry.1@);
                keep.push(entry);
                proof {
                    assert(keep_entries(keep) =~= oldkeep.push(ev));
                    assert(ev == oldview[i as int]);
                    assert(pred(oldview[i as int]));
                }
            } else {
                proof {
                    assert(!pred(oldview[i as int]));
                }
            }
            i += 1;
        }
        proof {
            assert(oldview.subrange(0, n as int) =~= oldview);
        }
        self.files = keep;
        proof {
            assert(self.files_entries() == oldview.filter(pred));
            lemma_filter_distinct_paths(oldview, pred);
            lemma_filter_files_membership(oldview, pred);
            assert forall|p: Seq<char>|
                #[trigger] self.files().contains_key(p) <==> files_map_of(oldview).contains_key(p)
                    && !is_tmp_path(root@, p) by {
                lemma_files_map_domain(oldview.filter(pred), p);
                lemma_files_map_domain(oldview, p);
                if files_map_of(oldview).contains_key(p) && !is_tmp_path(root@, p) {
                    let w = choose|w: int| 0 <= w < oldview.len() && (#[trigger] oldview[w]).0 == p;
                    assert(pred(oldview[w]));
                    assert(oldview.filter(pred).contains(oldview[w]));
                    let v = choose|v: int|
                        0 <= v < oldview.filter(pred).len() && oldview.filter(pred)[v] == oldview[w];
                    assert((oldview.filter(pred)[v]).0 == p);
                }
                if files_map_of(oldview.filter(pred)).contains_key(p) {
                    let w = choose|w: int|
                        0 <= w < oldview.filter(pred).len() && (#[trigger] oldview.filter(
                            pred,
                        )[w]).0 == p;
                    assert(oldview.contains(oldview.filter(pred)[w]));
                    let v = choose|v: int|
                        0 <= v < oldview.len() && oldview[v] == oldview.filter(pred)[w];
                    assert((oldview[v]).0 == p);
                    assert(pred(oldview.filter(pred)[w]));
                }
            }
            assert forall|p: Seq<char>| self.files().contains_key(p) implies #[trigger] self.files()[p]
                == files_map_of(oldview)[p] by {
                let fv = oldview.filter(pred);
                lemma_files_map_domain(fv, p);
                let w = choose|w: int| 0 <= w < fv.len() && (#[trigger] fv[w]).0 == p;
                lemma_filter_distinct_paths(oldview, pred);
                lemma_files_map_index(fv, w);
                assert(oldview.contains(fv[w]));
                let v = choose|v: int| 0 <= v < oldview.len() && oldview[v] == fv[w];
                lemma_files_map_index(oldview, v);
            }
        }
    }
}

/// The ghost entries of an owned file list.
pub open spec fn keep_entries(v: Vec<(String, Vec<u8>)>) -> Seq<(Seq<char>, Seq<u8>)> {
    Seq::new(v@.len(), |i: int| (v@[i].0@, v@[i].1@))
}

/// Whether a path names a stage file directly under the root: its name
/// starts with `.tmp.` and ends with `.internal.part`.
pub open spec fn is_tmp_path(root: Seq<char>, p: Seq<char>) -> bool {
    &&& has_prefix(p, root + "/.tmp."@)
    &&& has_suffix(p, ".internal.part"@)
    &&& !contains_seq(p.skip(root.len() as int + 1), seq!['/'])
}

/// Tests whether the characters of `s` from `off` on hold a separator.
fn tail_has_sep(s: &str, off: usize) -> (r: bool)
    requires
        off <= s@.len(),
    ensures
        r == contains_seq(s@.skip(off as int), seq!['/']),
{
    let n: usize = s.unicode_len();
    let mut i: usize = off;
    while i < n
        invariant
            n == s@.len(),
            off <= i <= n,
            forall|j: int| off <= j < i ==> s@[j] != '/',
        decreases n - i,
    {
        if s.get_char(i) == '/' {
            proof {
                let t = s@.skip(off as int);
                assert(t[i - off] == '/');
                assert(t.subrange(i - off, i - off + 1) =~= seq!['/']);
                assert(crate::strings::occurs_at(t, seq!['/'], i - off));
            }
            return true;
        }
        i += 1;
    }
    proof {
        let t = s@.skip(off as int);
        if contains_seq(t, seq!['/']) {
            let w = choose|w: int| crate::strings::occurs_at(t, seq!['/'], w);
            assert(t.subrange(w, w + 1)[0] == '/');
            assert(t[w] == '/');
            assert(s@[off + w] == '/');
        }
    }
    false
}

/// An owned copy of a byte vector.
fn clone_bytes(v: &Vec<u8>) -> (r: Vec<u8>)
    ensures
        r@ == v@,
{
    let mut out: Vec<u8> = Vec::new();
    let n: usize = v.len();
    let mut i: usize = 0;
    while i < n
        invariant
            n == v@.len(),
            0 <= i <= n,
            out@ == v@.subrange(0, i as int),
        decreases n - i,
    {
        out.push(v[i]);
        proof {
            assert(out@ =~= v@.subrange(0, i + 1));
        }
        i += 1;
    }
    proof {
        assert(v@.subrange(0, n as int) =~= v@);
    }
    out
}

/// Filtering keeps file paths pairwise distinct.
proof fn lemma_filter_distinct_paths(
    s: Seq<(Seq<char>, Seq<u8>)>,
    pred: spec_fn((Seq<char>, Seq<u8>)) -> bool,
)
    requires
        paths_distinct(s),
    ensures
        paths_distinct(s.filter(pred)),
        forall|i: int| 0 <= i < s.filter(pred).len() ==> s.contains(#[trigger] s.filter(pred)[i]),
    decreases s.len(),
{
    reveal(Seq::filter);
    if s.len() > 0 {
        assert(paths_distinct(s.drop_last())) by {
            assert(forall|i: int|
                0 <= i < s.drop_last().len() ==> s.drop_last()[i] == #[trigger] s[i]);
        }
        lemma_filter_distinct_paths(s.drop_last(), pred);
        let sub = s.drop_last().filter(pred);
        assert forall|i: int| 0 <= i < sub.len() implies s.contains(#[trigger] sub[i]) by {
            let w = choose|w: int| 0 <= w < s.drop_last().len() && s.drop_last()[w] == sub[i];
            assert(s[w] == sub[i]);
        }
        if pred(s.last()) {
            let t = sub.push(s.last());
            assert(s.contains(s.last()));
            assert(paths_distinct(t)) by {
                assert forall|a: int, b: int| 0 <= a < b < t.len() implies (#[trigger] t[a]).0 != (
                #[trigger] t[b]).0 by {
                    if b == t.len() - 1 {
                        assert(t[a] == sub[a]);
                        let w = choose|w: int|
                            0 <= w < s.drop_last().len() && s.drop_last()[w] == sub[a];
                        assert(s[w] == sub[a]);
                        assert(s[w].0 != s[s.len() - 1].0);
                    } else {
                        assert(t[a] == sub[a] && t[b] == sub[b]);
                    }
                }
            }
        }
    }
}

/// Every filtered entry comes from the input and satisfies the predicate.
proof fn lemma_filter_files_membership(
    s: Seq<(Seq<char>, Seq<u8>)>,
    pred: spec_fn((Seq<char>, Seq<u8>)) -> bool,
)
    ensures
        forall|i: int| 0 <= i < s.filter(pred).len() ==> s.contains(#[trigger] s.filter(pred)[i]),
        forall|i: int| 0 <= i < s.len() && pred(s[i]) ==> s.filter(pred).contains(#[trigger] s[i]),
    decreases s.len(),
{
    reveal(Seq::filter);
    broadcast use vstd::seq_lib::group_filter_ensures;

    if s.len() > 0 {
        lemma_filter_files_membership(s.drop_last(), pred);
        let sub = s.drop_last().filter(pred);
        assert forall|i: int| 0 <= i < s.filter(pred).len() implies s.contains(
            #[trigger] s.filter(pred)[i],
        ) by {
            if pred(s.last()) && i == s.filter(pred).len() - 1 {
                assert(s.filter(pred)[i] == s.last());
                assert(s.contains(s.last()));
            } else {
                assert(s.filter(pred)[i] == sub[i]);
                assert(s.drop_last().contains(sub[i]));
                let w = choose|w: int| 0 <= w < s.drop_last().len() && s.drop_last()[w] == sub[i];
                assert(s[w] == sub[i]);
            }
        }
        assert forall|i: int| 0 <= i < s.len() && pred(s[i]) implies s.filter(pred).contains(
            #[trigger] s[i],
        ) by {
            if i == s.len() - 1 {
                assert(s.filter(pred)[s.filter(pred).len() - 1] == s[i]);
            } else {
                assert(s.drop_last()[i] == s[i]);
                assert(sub.contains(s[i]));
                let w = choose|w: int| 0 <= w < sub.len() && sub[w] == s[i];
                assert(s.filter(pred)[w] == s[i]);
            }
        }
    }
}

/// Updating the content at a position updates the map at that path,
/// when paths are distinct.
proof fn lemma_files_update_map(s: Seq<(Seq<char>, Seq<u8>)>, i: int, v: Seq<u8>)
    requires
        paths_distinct(s),
        0 <= i < s.len(),
    ensures
        files_map_of(s.update(i, (s[i].0, v))) == files_map_of(s).insert(s[i].0, v),
    decreases s.len(),
{
    let t = s.update(i, (s[i].0, v));
    if i == s.len() - 1 {
        assert(t.drop_last() =~= s.drop_last());
        assert(files_map_of(t) =~= files_map_of(s).insert(s[i].0, v));
    } else {
        assert(t.drop_last() =~= s.drop_last().update(i, (s[i].0, v)));
        assert(paths_distinct(s.drop_last()));
        assert(s.drop_last()[i] == s[i]);
        lemma_files_update_map(s.drop_last(), i, v);
        assert(t.last() == s.last());
        assert(s[i].0 != s.last().0);
        assert(files_map_of(s.drop_last()).insert(s[i].0, v).insert(s.last().0, s.last().1)
            =~= files_map_of(s.drop_last()).insert(s.last().0, s.last().1).insert(s[i].0, v));
    }
}

/// Filtering out one path removes it from the map and keeps the rest.
proof fn lemma_filter_files_map_remove(
    s: Seq<(Seq<char>, Seq<u8>)>,
    target: Seq<char>,
    pred: spec_fn((Seq<char>, Seq<u8>)) -> bool,
)
    requires
        paths_distinct(s),
        forall|e: (Seq<char>, Seq<u8>)| #[trigger] pred(e) <==> e.0 != target,
    ensures
        files_map_of(s.filter(pred)) == files_map_of(s).remove(target),
    decreases s.len(),
{
    reveal(Seq::filter);
    if s.len() == 0 {
        assert(files_map_of(s.filter(pred)) =~= files_map_of(s).remove(target));
    } else {
        assert(paths_distinct(s.drop_last()));
        lemma_filter_files_map_remove(s.drop_last(), target, pred);
        if pred(s.last()) {
            assert(s.filter(pred) == s.drop_last().filter(pred).push(s.last()));
            assert(s.filter(pred).drop_last() =~= s.drop_last().filter(pred));
            assert(files_map_of(s.filter(pred)) == files_map_of(s.drop_last().filter(pred)).insert(
                s.last().0,
                s.last().1,
            ));
            assert(files_map_of(s).remove(target) =~= files_map_of(s.drop_last()).remove(
                target,
            ).insert(s.last().0, s.last().1));
        } else {
            assert(s.filter(pred) == s.drop_last().filter(pred));
            assert(s.last().0 == target);
            assert(files_map_of(s).remove(target) =~= files_map_of(s.drop_last()).remove(target));
        }
    }
}

/// The atomic file writer: bytes accumulate in a stage buffer and appear at
/// the destination as a whole on `done`, or not at all.
pub struct FileWriter {
    tmp_path: String,
    dest_path: String,
    buf: Vec<u8>,
}

impl FileWriter {
    /// The bytes staged so far.
    pub closed spec fn staged(&self) -> Seq<u8> {
        self.buf@
    }

    /// The stage file path this write would use.
    pub closed spec fn spec_tmp_path(&self) -> Seq<char> {
        self.tmp_path@
    }

    /// The destination the content will be renamed to.
    pub closed spec fn spec_dest_path(&self) -> Seq<char> {
        self.dest_path@
    }

    /// Opens a writer bound to a destination path.
    pub fn open(tmp_path: String, dest_path: String) -> (r: FileWriter)
        ensures
            r.staged() == Seq::<u8>::empty(),
            r.spec_tmp_path() == tmp_path@,
            r.spec_dest_path() == dest_path@,
    {
        let r = FileWriter { tmp_path, dest_path, buf: Vec::new() };
        r
    }

    /// The stage file path.
    pub fn tmp_path(&self) -> (r: &String)
        ensures
            r@ == self.spec_tmp_path(),
    {
        &self.tmp_path
    }

    /// The destination path.
    pub fn dest_path(&self) -> (r: &String)
        ensures
            r@ == self.spec_dest_path(),
    {
        &self.dest_path
    }

    /// Appends bytes to the stage buffer.
    pub fn write_all(&mut self, data: &[u8])
        ensures
            final(self).staged() == old(self).staged() + data@,
            final(self).spec_tmp_path() == old(self).spec_tmp_path(),
            final(self).spec_dest_path() == old(self).spec_dest_path(),
    {
        let n: usize = data.len();
        let mut i: usize = 0;
        while i < n
            invariant
                n == data@.len(),
                0 <= i <= n,
                self.buf@ == old(self).buf@ + data@.subrange(0, i as int),
                self.tmp_path@ == old(self).tmp_path@,
                self.dest_path@ == old(self).dest_path@,
            decreases n - i,
        {
            self.buf.push(data[i]);
            proof {
                assert(self.buf@ =~= old(self).buf@ + data@.subrange(0, i + 1));
            }
            i += 1;
        }
        proof {
            assert(old(self).buf@ + data@.subrange(0, n as int) =~= old(self).buf@ + data@);
        }
    }

    /// Commits the staged bytes: unless a directory stands at the
    /// destination, the content appears there as a whole. The stage file is
    /// gone either way.
    pub fn done(self, disk: &mut Disk)
        requires
            old(disk).wf(),
        ensures
            final(disk).wf(),
            final(disk).dirs() == old(disk).dirs(),
            old(disk).spec_dir_exists(self.spec_dest_path()) ==> final(disk).files() == old(
                disk,
            ).files(),
            !old(disk).spec_dir_exists(self.spec_dest_path()) ==> final(disk).files() == old(
                disk,
            ).files().insert(self.spec_dest_path(), self.staged()),
    {
        let FileWriter { tmp_path: _, dest_path, buf } = self;
        if !disk.dir_exists(dest_path.as_str()) {
            disk.write(dest_path, buf);
        }
    }
}

} // verus!
