//! The in-memory offset index: a map from key bytes to the file offset of the
//! key's most recent `Set` frame, compared by value.

use vstd::prelude::*;

verus! {

/// Exec equality of byte strings.
pub(crate) fn bytes_eq(a: &[u8], b: &[u8]) -> (r: bool)
    ensures
        r == (a@ == b@),
{
    if a.len() != b.len() {
        return false;
    }
    let mut i: usize = 0;
    while i < a.len()
        invariant
            a@.len() == b@.len(),
            i <= a@.len(),
            forall|j: int| 0 <= j < i ==> a@[j] == b@[j],
        decreases a@.len() - i,
    {
        if a[i] != b[i] {
            return false;
        }
        i = i + 1;
    }
    proof {
        assert(a@ =~= b@);
    }
    true
}

/// The map held by an entry list, later entries overriding earlier ones.
pub(crate) open spec fn entries_map(s: Seq<(Vec<u8>, usize)>) -> Map<Seq<u8>, int>
    decreases s.len(),
{
    if s.len() == 0 {
        Map::empty()
    } else {
        entries_map(s.drop_last()).insert(s.last().0@, s.last().1 as int)
    }
}

/// Entry keys are pairwise distinct.
pub(crate) open spec fn entries_distinct(s: Seq<(Vec<u8>, usize)>) -> bool {
    forall|i: int, j: int| 0 <= i < j < s.len() ==> s[i].0@ != s[j].0@
}

/// With distinct keys, the entry list and its map line up entry by entry.
pub(crate) proof fn lemma_entries_map(s: Seq<(Vec<u8>, usize)>)
    requires
        entries_distinct(s),
    ensures
        forall|k: Seq<u8>|
            #[trigger] entries_map(s).contains_key(k) ==> exists|i: int|
                0 <= i < s.len() && s[i].0@ == k,
        forall|i: int|
            0 <= i < s.len() ==> entries_map(s).contains_key(#[trigger] s[i].0@) && entries_map(
                s,
            )[s[i].0@] == s[i].1 as int,
        entries_map(s).dom().finite(),
        entries_map(s).dom().len() == s.len(),
    decreases s.len(),
{
    if s.len() > 0 {
        let pre = s.drop_last();
        assert(entries_distinct(pre)) by {
            assert(forall|i: int, j: int|
                0 <= i < j < pre.len() ==> pre[i] == s[i] && pre[j] == s[j]);
        }
        lemma_entries_map(pre);
        let last = s.last();
        assert(!entries_map(pre).contains_key(last.0@)) by {
            if entries_map(pre).contains_key(last.0@) {
                let i = choose|i: int| 0 <= i < pre.len() && pre[i].0@ == last.0@;
                assert(s[i].0@ == s[s.len() - 1].0@);
            }
        }
        assert(forall|i: int| 0 <= i < pre.len() ==> s[i] == pre[i]);
        assert(entries_map(s).dom() =~= entries_map(pre).dom().insert(last.0@));
    }
}

/// The offset index. Keys are byte strings; each maps to the offset of its
/// live `Set` frame.
#[derive(Debug)]
pub struct OffsetIndex {
    entries: Vec<(Vec<u8>, usize)>,
}

impl View for OffsetIndex {
    type V = Map<Seq<u8>, int>;

    closed spec fn view(&self) -> Map<Seq<u8>, int> {
        entries_map(self.entries@)
    }
}

impl OffsetIndex {
    /// The index never holds two entries for one key.
    pub closed spec fn wf(&self) -> bool {
        entries_distinct(self.entries@)
    }

    /// An empty index.
    pub fn new() -> (r: OffsetIndex)
        ensures
            r.wf(),
            r@ == Map::<Seq<u8>, int>::empty(),
    {
        let r = OffsetIndex { entries: Vec::new() };
        proof {
            assert(r.entries@.len() == 0);
        }
        r
    }

    /// Position of the entry holding `key`, if any.
    fn find(&self, key: &[u8]) -> (r: Option<usize>)
        ensures
            (match r {
                Some(i) => i < self.entries@.len() && self.entries@[i as int].0@ == key@,
                None => forall|j: int| 0 <= j < self.entries@.len() ==> self.entries@[j].0@ != key@,
            }),
    {
        let mut i: usize = 0;
        while i < self.entries.len()
            invariant
                i <= self.entries@.len(),
                forall|j: int| 0 <= j < i ==> self.entries@[j].0@ != key@,
            decreases self.entries@.len() - i,
        {
            let e = &self.entries[i];
            if bytes_eq(e.0.as_slice(), key) {
                return Some(i);
            }
            i = i + 1;
        }
        None
    }

    /// The offset bound to `key`, if the key is live.
    pub fn get(&self, key: &[u8]) -> (r: Option<usize>)
        requires
            self.wf(),
        ensures
            (match r {
                Some(o) => self@.contains_key(key@) && self@[key@] == o as int,
                None => !self@.contains_key(key@),
            }),
    {
        proof {
            lemma_entries_map(self.entries@);
        }
        match self.find(key) {
            Some(i) => Some(self.entries[i].1),
            None => {
                proof {
                    if self@.contains_key(key@) {
                        let i = choose|i: int|
                            0 <= i < self.entries@.len() && self.entries@[i].0@ == key@;
                        assert(self.entries@[i].0@ == key@);
                    }
                }
                None
            },
        }
    }

    /// Whether `key` is live.
    pub fn contains(&self, key: &[u8]) -> (r: bool)
        requires
            self.wf(),
        ensures
            r == self@.contains_key(key@),
    {
        self.get(key).is_some()
    }

    /// The number of live keys.
    pub fn len(&self) -> (r: usize)
        requires
            self.wf(),
        ensures
            r == self@.dom().len(),
            self@.dom().finite(),
    {
        proof {
            lemma_entries_map(self.entries@);
        }
        self.entries.len()
    }

    /// Drops `key`'s entry, if any.
    pub fn remove(&mut self, key: &[u8])
        requires
            old(self).wf(),
        ensures
            final(self).wf(),
            final(self)@ == old(self)@.remove(key@),
    {
        proof {
            lemma_entries_map(self.entries@);
        }
        let ghost olds = self.entries@;
        match self.find(key) {
            Some(i) => {
                self.entries.remove(i);
                proof {
                    let news = self.entries@;
                    assert(news == olds.remove(i as int));
                    assert(forall|j: int| 0 <= j < i ==> news[j] == olds[j]);
                    assert(forall|j: int|
                        i <= j < news.len() ==> news[j] == olds[j + 1]);
                    assert(entries_distinct(news)) by {
                        assert forall|p: int, q: int| 0 <= p < q < news.len() implies news[p].0@
                            != news[q].0@ by {
                            let p0 = if p < i {
                                p
                            } else {
                                p + 1
                            };
                            let q0 = if q < i {
                                q
                            } else {
                                q + 1
                            };
                            assert(news[p] == olds[p0] && news[q] == olds[q0]);
                        }
                    }
                    lemma_entries_map(news);
                    assert(final(self)@ =~= old(self)@.remove(key@)) by {
                        assert forall|k: Seq<u8>| #![auto] entries_map(news).contains_key(k)
                            implies entries_map(olds).contains_key(k) && k != key@ && entries_map(
                            olds,
                        )[k] == entries_map(news)[k] by {
                            let j = choose|j: int|
                                0 <= j < news.len() && news[j].0@ == k;
                            let j0 = if j < i {
                                j
                            } else {
                                j + 1
                            };
                            assert(olds[j0].0@ == k);
                            assert(olds[j0].0@ != olds[i as int].0@);
                        }
                        assert forall|k: Seq<u8>| #![auto] entries_map(olds).contains_key(k) && k
                            != key@ implies entries_map(news).contains_key(k) by {
                            let j0 = choose|j0: int|
                                0 <= j0 < olds.len() && olds[j0].0@ == k;
                            let j = if j0 < i {
                                j0
                            } else {
                                j0 - 1
                            };
                            assert(j0 != i);
                            assert(news[j].0@ == k);
                        }
                    }
                }
            },
            None => {
                proof {
                    assert(forall|j: int| 0 <= j < olds.len() ==> olds[j].0@ != key@);
                    if old(self)@.contains_key(key@) {
                        let j = choose|j: int|
                            0 <= j < olds.len() && olds[j].0@ == key@;
                        assert(olds[j].0@ == key@);
                    }
                    assert(final(self)@ =~= old(self)@.remove(key@));
                }
            },
        }
    }

    /// Binds `key` to `off`, replacing any earlier binding.
    pub fn insert(&mut self, key: Vec<u8>, off: usize)
        requires
            old(self).wf(),
        ensures
            final(self).wf(),
            final(self)@ == old(self)@.insert(key@, off as int),
    {
        self.remove(key.as_slice());
        let ghost mid = self.entries@;
        proof {
            lemma_entries_map(mid);
            assert(forall|j: int| 0 <= j < mid.len() ==> mid[j].0@ != key@) by {
                assert forall|j: int| 0 <= j < mid.len() implies mid[j].0@ != key@ by {
                    assert(entries_map(mid).contains_key(mid[j].0@));
                }
            }
        }
        self.entries.push((key, off));
        proof {
            let news = self.entries@;
            assert(news.drop_last() =~= mid);
            assert(news.last() == (key, off));
            assert(entries_distinct(news)) by {
                assert(forall|j: int| 0 <= j < mid.len() ==> news[j] == mid[j]);
            }
            assert(final(self)@ =~= old(self)@.insert(key@, off as int));
        }
    }
}

} // verus!
