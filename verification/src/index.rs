//! The in-memory index: decoded key text to the offset of that key's most
//! recent record.  It is rebuilt from the log on every open, updated on
//! every append, and never persisted itself.
//!
//! The index is an association list with unique keys; its abstract view is
//! the map it denotes.

use vstd::prelude::*;

verus! {

/// True when no two entries share a key.
pub open spec fn unique_keys(s: Seq<(String, u64)>) -> bool {
    forall|i: int, j: int| 0 <= i < j < s.len() ==> s[i].0@ != s[j].0@
}

/// The map that a sequence of entries denotes; a later entry for a key
/// overwrites an earlier one.
pub open spec fn entries_map(s: Seq<(String, u64)>) -> Map<Seq<char>, u64>
    decreases s.len(),
{
    if s.len() == 0 {
        Map::empty()
    } else {
        entries_map(s.drop_last()).insert(s.last().0@, s.last().1)
    }
}

proof fn lemma_entries_map_absent(s: Seq<(String, u64)>, k: Seq<char>)
    requires
        forall|j: int| 0 <= j < s.len() ==> s[j].0@ != k,
    ensures
        !entries_map(s).contains_key(k),
    decreases s.len(),
{
    if s.len() == 0 {
    } else {
        let dl = s.drop_last();
        assert(forall|j: int| 0 <= j < dl.len() ==> dl[j].0@ != k);
        lemma_entries_map_absent(dl, k);
        assert(s.last().0@ != k);
    }
}

proof fn lemma_entries_map_at(s: Seq<(String, u64)>, j: int)
    requires
        unique_keys(s),
        0 <= j < s.len(),
    ensures
        entries_map(s).contains_key(s[j].0@),
        entries_map(s)[s[j].0@] == s[j].1,
    decreases s.len(),
{
    if j == s.len() - 1 {
    } else {
        let dl = s.drop_last();
        assert(unique_keys(dl));
        assert(dl[j] == s[j]);
        lemma_entries_map_at(dl, j);
        assert(s.last().0@ != s[j].0@);
    }
}

proof fn lemma_entries_map_covered(s: Seq<(String, u64)>, k: Seq<char>)
    requires
        entries_map(s).contains_key(k),
    ensures
        exists|i: int| 0 <= i < s.len() && #[trigger] s[i].0@ == k,
    decreases s.len(),
{
    if s.len() == 0 {
    } else if s.last().0@ == k {
        assert(s[s.len() - 1].0@ == k);
    } else {
        let dl = s.drop_last();
        assert(entries_map(dl).contains_key(k));
        lemma_entries_map_covered(dl, k);
        let i = choose|i: int| 0 <= i < dl.len() && #[trigger] dl[i].0@ == k;
        assert(s[i].0@ == k);
    }
}

proof fn lemma_entries_map_update(s: Seq<(String, u64)>, j: int, e: (String, u64))
    requires
        unique_keys(s),
        0 <= j < s.len(),
        s[j].0@ == e.0@,
    ensures
        entries_map(s.update(j, e)) == entries_map(s).insert(e.0@, e.1),
    decreases s.len(),
{
    let s2 = s.update(j, e);
    if j == s.len() - 1 {
        assert(s2.drop_last() =~= s.drop_last());
        assert(s2.last() == e);
        assert(entries_map(s2) =~= entries_map(s).insert(e.0@, e.1));
    } else {
        let dl = s.drop_last();
        assert(unique_keys(dl));
        assert(dl[j] == s[j]);
        assert(s2.drop_last() =~= dl.update(j, e));
        lemma_entries_map_update(dl, j, e);
        assert(s2.last() == s.last());
        assert(s.last().0@ != e.0@);
        assert(entries_map(dl).insert(e.0@, e.1).insert(s.last().0@, s.last().1) =~= entries_map(
            dl,
        ).insert(s.last().0@, s.last().1).insert(e.0@, e.1));
    }
}

/// The in-memory key-to-offset index.
pub struct Index {
    entries: Vec<(String, u64)>,
}

impl View for Index {
    type V = Map<Seq<char>, u64>;

    closed spec fn view(&self) -> Map<Seq<char>, u64> {
        entries_map(self.entries@)
    }
}

impl Index {
    /// Well-formedness: each key is held by at most one entry.
    pub closed spec fn wf(self) -> bool {
        unique_keys(self.entries@)
    }

    /// The entries in their stored order: each key's text and offset.
    pub closed spec fn spec_entries(self) -> Seq<(Seq<char>, u64)> {
        Seq::new(self.entries@.len(), |i: int| (self.entries@[i].0@, self.entries@[i].1))
    }

    /// Creates an empty index.
    pub fn new() -> (r: Index)
        ensures
            r.wf(),
            r@ == Map::<Seq<char>, u64>::empty(),
    {
        Index { entries: Vec::new() }
    }

    /// Looks a key up: the offset of its latest record, or `None` when the
    /// key was never recorded.
    pub fn lookup(&self, key: &String) -> (r: Option<u64>)
        requires
            self.wf(),
        ensures
            (match r {
                Some(offset) => self@.contains_key(key@) && self@[key@] == offset,
                None => !self@.contains_key(key@),
            }),
    {
        let n: usize = self.entries.len();
        let mut i: usize = 0;
        while i < n
            invariant
                self.wf(),
                n == self.entries@.len(),
                i <= n,
                forall|j: int| 0 <= j < i ==> self.entries@[j].0@ != key@,
            decreases n - i,
        {
            if self.entries[i].0 == *key {
                proof {
                    lemma_entries_map_at(self.entries@, i as int);
                }
                return Some(self.entries[i].1);
            }
            i = i + 1;
        }
        proof {
            lemma_entries_map_absent(self.entries@, key@);
        }
        None
    }

    /// Binds a key to an offset, overwriting the key's prior entry if it
    /// has one.
    pub fn insert(&mut self, key: String, offset: u64)
        requires
            old(self).wf(),
        ensures
            final(self).wf(),
            final(self)@ == old(self)@.insert(key@, offset),
    {
        let n: usize = self.entries.len();
        let mut i: usize = 0;
        while i < n
            invariant
                old(self).wf(),
                *self == *old(self),
                n == self.entries@.len(),
                i <= n,
                forall|j: int| 0 <= j < i ==> self.entries@[j].0@ != key@,
            decreases n - i,
        {
            if self.entries[i].0 == key {
                proof {
                    lemma_entries_map_update(self.entries@, i as int, (key, offset));
                }
                self.entries[i] = (key, offset);
                proof {
                    let s2 = self.entries@;
                    let s1 = old(self).entries@;
                    assert forall|p: int, q: int| 0 <= p < q < s2.len() implies s2[p].0@
                        != s2[q].0@ by {
                        assert(s1[p].0@ != s1[q].0@);
                        assert(s1[i as int].0@ == key@);
                    }
                    assert(unique_keys(s2));
                }
                return ;
            }
            i = i + 1;
        }
        proof {
            lemma_entries_map_absent(self.entries@, key@);
        }
        self.entries.push((key, offset));
        proof {
            let s2 = self.entries@;
            let s1 = old(self).entries@;
            assert(s2.drop_last() =~= s1);
            assert(entries_map(s2) == entries_map(s1).insert(key@, offset));
            assert forall|p: int, q: int| 0 <= p < q < s2.len() implies s2[p].0@ != s2[q].0@ by {
                if q < s1.len() {
                    assert(s1[p].0@ != s1[q].0@);
                } else {
                    assert(s1[p].0@ != key@);
                }
            }
            assert(unique_keys(s2));
        }
    }

    /// The number of entries.
    pub fn len(&self) -> (r: usize)
        ensures
            r == self.spec_entries().len(),
    {
        self.entries.len()
    }

    /// The entry at a position: a copy of its key text and its offset.
    pub fn entry_at(&self, i: usize) -> (r: (String, u64))
        requires
            self.wf(),
            i < self.spec_entries().len(),
        ensures
            (r.0@, r.1) == self.spec_entries()[i as int],
            self@.contains_key(r.0@),
            self@[r.0@] == r.1,
    {
        proof {
            lemma_entries_map_at(self.entries@, i as int);
        }
        (self.entries[i].0.clone(), self.entries[i].1)
    }

    /// The entries describe the index map exactly: each entry is a binding
    /// of the map, no key is listed twice, and every binding of the map is
    /// listed.  Walking the entries therefore dumps every binding once.
    pub proof fn lemma_entries_list_bindings(self)
        requires
            self.wf(),
        ensures
            forall|i: int| #![trigger self.spec_entries()[i]]
                0 <= i < self.spec_entries().len() ==> self@.contains_key(self.spec_entries()[i].0)
                    && self@[self.spec_entries()[i].0] == self.spec_entries()[i].1,
            forall|i: int, j: int| #![trigger self.spec_entries()[i], self.spec_entries()[j]]
                0 <= i < j < self.spec_entries().len() ==> self.spec_entries()[i].0
                    != self.spec_entries()[j].0,
            forall|k: Seq<char>| #[trigger]
                self@.contains_key(k) ==> exists|i: int|
                    0 <= i < self.spec_entries().len() && #[trigger] self.spec_entries()[i].0 == k,
    {
        assert forall|i: int| 0 <= i < self.spec_entries().len() implies self@.contains_key(
            #[trigger] self.spec_entries()[i].0,
        ) && self@[self.spec_entries()[i].0] == self.spec_entries()[i].1 by {
            lemma_entries_map_at(self.entries@, i);
        }
        assert forall|k: Seq<char>| #[trigger] self@.contains_key(k) implies exists|i: int|
            0 <= i < self.spec_entries().len() && #[trigger] self.spec_entries()[i].0 == k by {
            lemma_entries_map_covered(self.entries@, k);
            let i = choose|i: int| 0 <= i < self.entries@.len() && #[trigger] self.entries@[i].0@
                == k;
            assert(self.spec_entries()[i].0 == k);
        }
    }
}

} // verus!
