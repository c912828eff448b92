use vstd::prelude::*;

verus! {

/// An insertion-ordered mapping from strings to strings, with unique keys.
/// It is the catalog form of user metadata and of the per-object checksum set.
#[derive(Debug, Clone, PartialEq, Eq)]
pub struct StrMap {
    pairs: Vec<(String, String)>,
}

impl View for StrMap {
    type V = Seq<(Seq<char>, Seq<char>)>;

    closed spec fn view(&self) -> Seq<(Seq<char>, Seq<char>)> {
        Seq::new(self.pairs@.len(), |i: int| (self.pairs@[i].0@, self.pairs@[i].1@))
    }
}

/// The mathematical map described by a sequence of key/value pairs;
/// later pairs win.
pub open spec fn entries_map(s: Seq<(Seq<char>, Seq<char>)>) -> Map<Seq<char>, Seq<char>>
    decreases s.len(),
{
    if s.len() == 0 {
        Map::<Seq<char>, Seq<char>>::empty()
    } else {
        entries_map(s.drop_last()).insert(s.last().0, s.last().1)
    }
}

/// Whether the keys of a pair sequence are pairwise distinct.
pub open spec fn keys_distinct(s: Seq<(Seq<char>, Seq<char>)>) -> bool {
    forall|i: int, j: int| 0 <= i < j < s.len() ==> s[i].0 != s[j].0
}

/// A key is in the map exactly when some pair holds it.
pub proof fn lemma_entries_map_domain(s: Seq<(Seq<char>, Seq<char>)>, k: Seq<char>)
    ensures
        entries_map(s).contains_key(k) <==> exists|i: int| 0 <= i < s.len() && s[i].0 == k,
    decreases s.len(),
{
    if s.len() > 0 {
        lemma_entries_map_domain(s.drop_last(), k);
        if entries_map(s).contains_key(k) {
            if s.last().0 == k {
                assert(s[s.len() - 1].0 == k);
            } else {
                let i = choose|i: int| 0 <= i < s.drop_last().len() && s.drop_last()[i].0 == k;
                assert(s[i].0 == k);
            }
        }
        if exists|i: int| 0 <= i < s.len() && s[i].0 == k {
            let i = choose|i: int| 0 <= i < s.len() && s[i].0 == k;
            if i < s.len() - 1 {
                assert(s.drop_last()[i].0 == k);
            }
        }
    }
}

/// With distinct keys, the pair holding a key gives its value in the map.
pub proof fn lemma_entries_map_index(s: Seq<(Seq<char>, Seq<char>)>, i: int)
    requires
        keys_distinct(s),
        0 <= i < s.len(),
    ensures
        entries_map(s).contains_key(s[i].0),
        entries_map(s)[s[i].0] == s[i].1,
    decreases s.len(),
{
    if i == s.len() - 1 {
        lemma_entries_map_domain(s, s[i].0);
    } else {
        assert(keys_distinct(s.drop_last()));
        lemma_entries_map_index(s.drop_last(), i);
        assert(s.drop_last()[i] == s[i]);
        assert(s[i].0 != s.last().0);
    }
}

impl StrMap {
    /// The keys of the pairs are pairwise distinct.
    pub open spec fn wf(&self) -> bool {
        keys_distinct(self@)
    }

    /// The mathematical map this value holds.
    pub open spec fn spec_map(&self) -> Map<Seq<char>, Seq<char>> {
        entries_map(self@)
    }

    /// Creates an empty mapping.
    pub fn new() -> (r: StrMap)
        ensures
            r@ == Seq::<(Seq<char>, Seq<char>)>::empty(),
            r.wf(),
            r.spec_map() == Map::<Seq<char>, Seq<char>>::empty(),
    {
        StrMap { pairs: Vec::new() }
    }

    /// Number of entries.
    pub fn len(&self) -> (r: usize)
        ensures
            r == self@.len(),
    {
        self.pairs.len()
    }

    /// The key and value of the entry at a position.
    pub fn pair_at(&self, i: usize) -> (r: (&String, &String))
        requires
            i < self@.len(),
        ensures
            r.0@ == self@[i as int].0,
            r.1@ == self@[i as int].1,
    {
        let p = &self.pairs[i];
        (&p.0, &p.1)
    }

    /// Looks a key up; returns the stored value when present.
    pub fn get(&self, k: &str) -> (r: Option<&String>)
        requires
            self.wf(),
        ensures
            match r {
                Some(v) => self.spec_map().contains_key(k@) && self.spec_map()[k@] == v@,
                None => !self.spec_map().contains_key(k@),
            },
    {
        let n: usize = self.pairs.len();
        let mut i: usize = 0;
        while i < n
            invariant
                n == self@.len(),
                0 <= i <= n,
                self.wf(),
                forall|j: int| 0 <= j < i ==> self@[j].0 != k@,
            decreases n - i,
        {
            if crate::strings::str_eq(self.pairs[i].0.as_str(), k) {
                proof {
                    lemma_entries_map_index(self@, i as int);
                }
                return Some(&self.pairs[i].1);
            }
            i += 1;
        }
        proof {
            lemma_entries_map_domain(self@, k@);
        }
        None
    }

    /// Whether the mapping holds a key.
    pub fn contains_key(&self, k: &str) -> (r: bool)
        requires
            self.wf(),
        ensures
            r == self.spec_map().contains_key(k@),
    {
        self.get(k).is_some()
    }

    /// Inserts a key/value pair: replaces the value in place when the key is
    /// present, appends the pair otherwise.
    pub fn insert(&mut self, k: String, v: String)
        requires
            old(self).wf(),
        ensures
            final(self).wf(),
            final(self).spec_map() == old(self).spec_map().insert(k@, v@),
            final(self)@.len() <= old(self)@.len() + 1,
            !old(self).spec_map().contains_key(k@) ==> final(self)@ == old(self)@.push((k@, v@)),
    {
        let ghost oldview = self@;
        let n: usize = self.pairs.len();
        let mut i: usize = 0;
        while i < n
            invariant
                n == self@.len(),
                0 <= i <= n,
                self.wf(),
                self@ == oldview,
                oldview == old(self)@,
                forall|j: int| 0 <= j < i ==> self@[j].0 != k@,
            decreases n - i,
        {
            if crate::strings::str_eq(self.pairs[i].0.as_str(), k.as_str()) {
                let ghost kk = k@;
                let ghost vv = v@;
                proof {
                    assert(oldview[i as int].0 == kk);
                    lemma_entries_map_index(oldview, i as int);
                }
                self.pairs.remove(i);
                self.pairs.insert(i, (k, v));
                proof {
                    let newview = self@;
                    assert(newview[i as int] == (kk, vv));
                    assert(newview =~= oldview.update(i as int, (kk, vv)));
                    assert(keys_distinct(newview)) by {
                        assert(newview[i as int].0 == oldview[i as int].0);
                        assert(forall|j: int|
                            0 <= j < newview.len() && j != i ==> newview[j] == oldview[j]);
                    }
                    lemma_update_map(oldview, i as int, vv);
                    assert(oldview.update(i as int, (oldview[i as int].0, vv)) =~= oldview.update(
                        i as int,
                        (kk, vv),
                    ));
                }
                return ;
            }
            i += 1;
        }
        self.pairs.push((k, v));
        proof {
            assert(self@ =~= oldview.push((k@, v@)));
            assert(self@.drop_last() =~= oldview);
            assert(keys_distinct(self@)) by {
                assert(forall|j: int| 0 <= j < oldview.len() ==> self@[j] == oldview[j]);
            }
            lemma_entries_map_domain(oldview, self@.last().0);
        }
    }
}

/// Updating the value at a position updates the map at that key,
/// when keys are distinct.
proof fn lemma_update_map(s: Seq<(Seq<char>, Seq<char>)>, i: int, v: Seq<char>)
    requires
        keys_distinct(s),
        0 <= i < s.len(),
    ensures
        entries_map(s.update(i, (s[i].0, v))) == entries_map(s).insert(s[i].0, v),
    decreases s.len(),
{
    let t = s.update(i, (s[i].0, v));
    if i == s.len() - 1 {
        assert(t.drop_last() =~= s.drop_last());
        assert(entries_map(t) =~= entries_map(s).insert(s[i].0, v));
    } else {
        assert(t.drop_last() =~= s.drop_last().update(i, (s[i].0, v)));
        assert(keys_distinct(s.drop_last()));
        assert(s.drop_last()[i] == s[i]);
        lemma_update_map(s.drop_last(), i, v);
        assert(t.last() == s.last());
        assert(entries_map(t) == entries_map(s.drop_last()).insert(s[i].0, v).insert(
            s.last().0,
            s.last().1,
        ));
        assert(s[i].0 != s.last().0);
        assert(entries_map(s.drop_last()).insert(s[i].0, v).insert(s.last().0, s.last().1)
            =~= entries_map(s.drop_last()).insert(s.last().0, s.last().1).insert(s[i].0, v));
    }
}

} // verus!
