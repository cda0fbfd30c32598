use vstd::prelude::*;
use crate::Error;
use crate::record::{Bytes, RecordIndex};

verus! {

/// What the in-memory index records of a key: the segment index, the offset
/// of the record's flag byte, and the record's flag.
pub type Locator = (u64, u64, u8);

/// The mapping a list of locator entries denotes; meaningful when keys are
/// unique.
pub open spec fn entries_map(s: Seq<RecordIndex>) -> Map<Seq<u8>, Locator> {
    Map::new(
        |k: Seq<u8>| exists|i: int| 0 <= i < s.len() && (#[trigger] s[i]).key@ == k,
        |k: Seq<u8>| {
            let i = choose|i: int| 0 <= i < s.len() && (#[trigger] s[i]).key@ == k;
            (s[i].segment, s[i].offset, s[i].flag)
        },
    )
}

pub open spec fn keys_unique(s: Seq<RecordIndex>) -> bool {
    forall|i: int, j: int| 0 <= i < j < s.len()
        ==> (#[trigger] s[i]).key@ != (#[trigger] s[j]).key@
}

/// The in-memory index: each live key's locator, keys unique, the most
/// recent write first to last in insertion order.
pub struct Index {
    entries: Vec<RecordIndex>,
}

impl View for Index {
    type V = Map<Seq<u8>, Locator>;

    closed spec fn view(&self) -> Map<Seq<u8>, Locator> {
        entries_map(self.entries@)
    }
}

/// Do two byte slices hold the same bytes?
pub fn bytes_eq(a: &[u8], b: &[u8]) -> (r: bool)
    ensures
        r == (a@ == b@),
{
    if a.len() != b.len() {
        proof {
            assert(a@ != b@);
        }
        return false;
    }
    let n: usize = a.len();
    let mut i: usize = 0;
    while i < n
        invariant
            n == a@.len() == b@.len(),
            i <= n,
            forall|j: int| 0 <= j < i ==> a@[j] == b@[j],
        decreases n - i,
    {
        if *vstd::slice::slice_index_get(a, i) != *vstd::slice::slice_index_get(b, i) {
            return false;
        }
        i = i + 1;
    }
    proof {
        assert(a@ =~= b@);
    }
    true
}

impl Index {
    pub closed spec fn wf(&self) -> bool {
        keys_unique(self.entries@)
    }

    /// The entries, one per live key, most recently touched last.
    pub closed spec fn spec_entries(&self) -> Seq<RecordIndex> {
        self.entries@
    }

    pub fn new() -> (r: Self)
        ensures
            r.wf(),
            r@ == Map::<Seq<u8>, Locator>::empty(),
            r.spec_entries() == Seq::<RecordIndex>::empty(),
    {
        let r = Index { entries: Vec::new() };
        proof {
            assert(r@ =~= Map::<Seq<u8>, Locator>::empty());
        }
        r
    }

    pub fn len(&self) -> (r: usize)
        ensures
            r == self.spec_entries().len(),
    {
        self.entries.len()
    }

    /// Borrow the entries for iteration, as rebuild and merge need.
    pub fn entries(&self) -> (r: &Vec<RecordIndex>)
        ensures
            r@ == self.spec_entries(),
    {
        &self.entries
    }

    /// Where in the list the key sits, if anywhere.
    fn find(&self, key: &[u8]) -> (r: Option<usize>)
        requires
            self.wf(),
        ensures
            match r {
                Some(i) => i < self.spec_entries().len()
                    && self.spec_entries()[i as int].key@ == key@
                    && self@.contains_key(key@)
                    && self@[key@] == (self.spec_entries()[i as int].segment,
                        self.spec_entries()[i as int].offset,
                        self.spec_entries()[i as int].flag),
                None => !self@.contains_key(key@),
            },
    {
        let n: usize = self.entries.len();
        let mut i: usize = 0;
        while i < n
            invariant
                self.wf(),
                n == self.spec_entries().len(),
                i <= n,
                forall|j: int| 0 <= j < i ==> (#[trigger] self.spec_entries()[j]).key@ != key@,
            decreases n - i,
        {
            if bytes_eq(self.entries[i].key.as_slice(), key) {
                proof {
                    let s = self.spec_entries();
                    assert(s[i as int].key@ == key@);
                    let w = choose|w: int| 0 <= w < s.len() && (#[trigger] s[w]).key@ == key@;
                    assert(w == i);
                }
                return Some(i);
            }
            i = i + 1;
        }
        proof {
            assert(!self@.contains_key(key@));
        }
        None
    }

    /// Look a key up; a copy of its locator entry, if the key is live.
    pub fn get(&self, key: &[u8]) -> (r: Option<RecordIndex>)
        requires
            self.wf(),
        ensures
            match r {
                Some(ri) => self@.contains_key(key@)
                    && ri.key@ == key@
                    && self@[key@] == (ri.segment, ri.offset, ri.flag),
                None => !self@.contains_key(key@),
            },
    {
        match self.find(key) {
            Some(i) => Some(self.entries[i].clone()),
            None => None,
        }
    }

    /// Insert or replace the locator of `record.key`.
    pub fn set(&mut self, record: RecordIndex) -> (r: Result<(), Error>)
        requires
            old(self).wf(),
        ensures
            r is Ok,
            final(self).wf(),
            final(self)@ == old(self)@.insert(record.key@, (record.segment, record.offset, record.flag)),
    {
        let ghost k: Seq<u8> = record.key@;
        let ghost tgt: Map<Seq<u8>, Locator> =
            old(self)@.insert(record.key@, (record.segment, record.offset, record.flag));
        match self.find(record.key.as_slice()) {
            Some(i) => {
                let ghost s0 = self.entries@;
                self.entries.remove(i);
                proof {
                    lemma_remove_unique(s0, i as int);
                }
                self.entries.push(record);
                proof {
                    lemma_push_fresh(s0.remove(i as int), k);
                    assert(keys_unique(self.entries@));
                    lemma_map_after_set(s0, i as int, self.entries@);
                    assert(self@ =~= tgt);
                }
            },
            None => {
                let ghost s0 = self.entries@;
                self.entries.push(record);
                proof {
                    lemma_push_fresh(s0, k);
                    assert(keys_unique(self.entries@));
                    lemma_map_after_push(s0, self.entries@);
                    assert(self@ =~= tgt);
                }
            },
        }
        Ok(())
    }

    /// Drop a key from the index, if present.
    pub fn delete(&mut self, key: &Bytes) -> (r: Result<(), Error>)
        requires
            old(self).wf(),
        ensures
            r is Ok,
            final(self).wf(),
            final(self)@ == old(self)@.remove(key@),
    {
        let ghost tgt: Map<Seq<u8>, Locator> = old(self)@.remove(key@);
        match self.find(key.as_slice()) {
            Some(i) => {
                let ghost s0 = self.entries@;
                self.entries.remove(i);
                proof {
                    lemma_remove_unique(s0, i as int);
                    lemma_map_after_remove(s0, i as int, key@);
                    assert(self@ =~= tgt);
                }
            },
            None => {
                proof {
                    assert(self@ =~= tgt);
                }
            },
        }
        Ok(())
    }
}

impl Index {
    /// A well-formed index lists each key once.
    pub proof fn lemma_keys_unique(&self)
        requires
            self.wf(),
        ensures
            keys_unique(self.spec_entries()),
    {
    }

    /// The map an index denotes is the one its entry list spells out.
    pub proof fn lemma_view_entries(&self)
        ensures
            self@ == entries_map(self.spec_entries()),
    {
    }

    /// Each listed entry is the index's own record of its key.
    pub proof fn lemma_entry_lookup(&self, i: int)
        requires
            self.wf(),
            0 <= i < self.spec_entries().len(),
        ensures
            self@.contains_key(self.spec_entries()[i].key@),
            self@[self.spec_entries()[i].key@] == (self.spec_entries()[i].segment,
                self.spec_entries()[i].offset, self.spec_entries()[i].flag),
    {
        lemma_unique_lookup(self.spec_entries(), i);
    }
}

/// Removing an entry keeps the remaining keys unique, and no surviving entry
/// holds the removed entry's key.
proof fn lemma_remove_unique(s: Seq<RecordIndex>, i: int)
    requires
        keys_unique(s),
        0 <= i < s.len(),
    ensures
        keys_unique(s.remove(i)),
        forall|j: int| 0 <= j < s.remove(i).len()
            ==> (#[trigger] s.remove(i)[j]).key@ != s[i].key@,
{
    let s2 = s.remove(i);
    assert forall|a: int, b: int| 0 <= a < b < s2.len()
        implies (#[trigger] s2[a]).key@ != (#[trigger] s2[b]).key@ by {
        let a0: int = if a < i { a } else { a + 1 };
        let b0: int = if b < i { b } else { b + 1 };
        assert(s2[a] == s[a0] && s2[b] == s[b0]);
    }
    assert forall|j: int| 0 <= j < s2.len()
        implies (#[trigger] s2[j]).key@ != s[i].key@ by {
        let j0: int = if j < i { j } else { j + 1 };
        assert(s2[j] == s[j0]);
    }
}

/// Pushing an entry whose key occurs nowhere in the list keeps keys unique.
proof fn lemma_push_fresh(s: Seq<RecordIndex>, k: Seq<u8>)
    requires
        keys_unique(s),
    ensures
        forall|r: RecordIndex| r.key@ == k
            && (forall|j: int| 0 <= j < s.len() ==> (#[trigger] s[j]).key@ != k)
            ==> keys_unique(s.push(r)),
{
    assert forall|r: RecordIndex| r.key@ == k
        && (forall|j: int| 0 <= j < s.len() ==> (#[trigger] s[j]).key@ != k)
        implies keys_unique(s.push(r)) by {
        let s2 = s.push(r);
        assert forall|a: int, b: int| 0 <= a < b < s2.len()
            implies (#[trigger] s2[a]).key@ != (#[trigger] s2[b]).key@ by {
            if b < s.len() {
                assert(s2[a] == s[a] && s2[b] == s[b]);
            } else {
                assert(s2[b] == r && s2[a] == s[a]);
            }
        }
    }
}

/// After replacing the entry at `i` by one with the same key, pushed at the
/// end, the denoted map is the old map with that key updated.
proof fn lemma_map_after_set(s0: Seq<RecordIndex>, i: int, s2: Seq<RecordIndex>)
    requires
        keys_unique(s0),
        0 <= i < s0.len(),
        s2.len() == s0.len(),
        s2 == s0.remove(i).push(s2.last()),
        s2.last().key@ == s0[i].key@,
    ensures
        entries_map(s2) == entries_map(s0).insert(s2.last().key@,
            (s2.last().segment, s2.last().offset, s2.last().flag)),
{
    let k = s0[i].key@;
    let r = s2.last();
    lemma_remove_unique(s0, i);
    lemma_push_fresh(s0.remove(i), k);
    let m2 = entries_map(s2);
    let tgt = entries_map(s0).insert(k, (r.segment, r.offset, r.flag));
    assert forall|q: Seq<u8>| #[trigger] m2.contains_key(q) implies tgt.contains_key(q)
        && m2[q] == tgt[q] by {
        let w = choose|w: int| 0 <= w < s2.len() && (#[trigger] s2[w]).key@ == q;
        if q == k {
            assert forall|w2: int| 0 <= w2 < s2.len() && (#[trigger] s2[w2]).key@ == k
                implies w2 == s2.len() - 1 by {
                if w2 < s2.len() - 1 {
                    assert(s2[w2] == s0.remove(i)[w2]);
                }
            }
            assert(m2[q] == (r.segment, r.offset, r.flag));
        } else {
            assert(w < s2.len() - 1);
            assert(s2[w] == s0.remove(i)[w]);
            let w0: int = if w < i { w } else { w + 1 };
            assert(s0[w0].key@ == q);
            lemma_unique_lookup(s0, w0);
            lemma_unique_lookup(s2, w);
        }
    }
    assert forall|q: Seq<u8>| #[trigger] tgt.contains_key(q) implies m2.contains_key(q) by {
        if q == k {
            assert(s2[s2.len() - 1].key@ == q);
        } else {
            let w = choose|w: int| 0 <= w < s0.len() && (#[trigger] s0[w]).key@ == q;
            assert(w != i);
            let w2: int = if w < i { w } else { w - 1 };
            assert(s2[w2] == s0.remove(i)[w2]);
            assert(s2[w2].key@ == q);
        }
    }
    assert(m2 =~= tgt);
}

/// With unique keys, the denoted map sends each entry's key to that entry.
proof fn lemma_unique_lookup(s: Seq<RecordIndex>, i: int)
    requires
        keys_unique(s),
        0 <= i < s.len(),
    ensures
        entries_map(s).contains_key(s[i].key@),
        entries_map(s)[s[i].key@] == (s[i].segment, s[i].offset, s[i].flag),
{
    let k = s[i].key@;
    let w = choose|w: int| 0 <= w < s.len() && (#[trigger] s[w]).key@ == k;
    assert(w == i);
}

/// Pushing an entry adds exactly its key to the denoted map.
proof fn lemma_map_after_push(s0: Seq<RecordIndex>, s2: Seq<RecordIndex>)
    requires
        keys_unique(s0),
        s2.len() == s0.len() + 1,
        s2 == s0.push(s2.last()),
        forall|j: int| 0 <= j < s0.len() ==> (#[trigger] s0[j]).key@ != s2.last().key@,
    ensures
        entries_map(s2) == entries_map(s0).insert(s2.last().key@,
            (s2.last().segment, s2.last().offset, s2.last().flag)),
{
    let k = s2.last().key@;
    let r = s2.last();
    lemma_push_fresh(s0, k);
    let m2 = entries_map(s2);
    let tgt = entries_map(s0).insert(k, (r.segment, r.offset, r.flag));
    assert forall|q: Seq<u8>| #[trigger] m2.contains_key(q) implies tgt.contains_key(q)
        && m2[q] == tgt[q] by {
        let w = choose|w: int| 0 <= w < s2.len() && (#[trigger] s2[w]).key@ == q;
        if q == k {
            assert forall|w2: int| 0 <= w2 < s2.len() && (#[trigger] s2[w2]).key@ == k
                implies w2 == s2.len() - 1 by {
                if w2 < s2.len() - 1 {
                    assert(s2[w2] == s0[w2]);
                }
            }
            assert(m2[q] == (r.segment, r.offset, r.flag));
        } else {
            assert(w < s2.len() - 1);
            assert(s2[w] == s0[w]);
            lemma_unique_lookup(s0, w);
            lemma_unique_lookup(s2, w);
        }
    }
    assert forall|q: Seq<u8>| #[trigger] tgt.contains_key(q) implies m2.contains_key(q) by {
        if q == k {
            assert(s2[s2.len() - 1].key@ == q);
        } else {
            let w = choose|w: int| 0 <= w < s0.len() && (#[trigger] s0[w]).key@ == q;
            assert(s2[w] == s0[w]);
            assert(s2[w].key@ == q);
        }
    }
    assert(m2 =~= tgt);
}

/// Removing the entry at `i` drops exactly its key from the denoted map.
proof fn lemma_map_after_remove(s0: Seq<RecordIndex>, i: int, k: Seq<u8>)
    requires
        keys_unique(s0),
        0 <= i < s0.len(),
        s0[i].key@ == k,
    ensures
        entries_map(s0.remove(i)) == entries_map(s0).remove(k),
{
    lemma_remove_unique(s0, i);
    let s2 = s0.remove(i);
    let m2 = entries_map(s2);
    let tgt = entries_map(s0).remove(k);
    assert forall|q: Seq<u8>| #[trigger] m2.contains_key(q) implies tgt.contains_key(q)
        && m2[q] == tgt[q] by {
        let w = choose|w: int| 0 <= w < s2.len() && (#[trigger] s2[w]).key@ == q;
        let w0: int = if w < i { w } else { w + 1 };
        assert(s2[w] == s0[w0]);
        assert(q != k);
        lemma_unique_lookup(s0, w0);
        lemma_unique_lookup(s2, w);
    }
    assert forall|q: Seq<u8>| #[trigger] tgt.contains_key(q) implies m2.contains_key(q) by {
        let w = choose|w: int| 0 <= w < s0.len() && (#[trigger] s0[w]).key@ == q;
        assert(w != i);
        let w2: int = if w < i { w } else { w - 1 };
        assert(s2[w2] == s0[w]);
        assert(s2[w2].key@ == q);
    }
    assert(m2 =~= tgt);
}

} // verus!
