//! The in-memory index: for each live key, where its record lies in the
//! data file.

use vstd::hash_map::StringHashMap;
use vstd::prelude::*;

verus! {

/// Where a record lies in the data file: the position of its first byte,
/// and its length with the newline.
#[derive(Debug, Clone, Copy, PartialEq, Eq, Structural)]
pub struct ValueMetadata {
    pub offset: u64,
    pub len: u64,
}

/// A map from keys to places in the data file. Beside the map it keeps the
/// keys in a fixed order, in which they can be walked.
pub struct Index {
    records: StringHashMap<ValueMetadata>,
    keys: Vec<String>,
}

/// The texts of `keys`, in order.
pub open spec fn key_texts(keys: Seq<String>) -> Seq<Seq<char>> {
    Seq::new(keys.len(), |i: int| keys[i]@)
}

impl View for Index {
    type V = Map<Seq<char>, ValueMetadata>;

    closed spec fn view(&self) -> Map<Seq<char>, ValueMetadata> {
        self.records@
    }
}

impl Index {
    /// The keys of the index in the order in which they are walked.
    pub closed spec fn order(&self) -> Seq<Seq<char>> {
        key_texts(self.keys@)
    }

    /// The index is sound: the walk meets every key once, and nothing else.
    pub closed spec fn wf(&self) -> bool {
        &&& self.order().no_duplicates()
        &&& forall|i: int| 0 <= i < self.order().len() ==> self@.contains_key(#[trigger] self.order()[i])
        &&& forall|k: Seq<char>| self@.contains_key(k) ==> self.order().contains(k)
    }

    /// What `wf` says, for those who cannot look inside.
    pub proof fn lemma_wf(&self)
        requires
            self.wf(),
        ensures
            self.order().no_duplicates(),
            forall|k: Seq<char>| self@.contains_key(k) <==> self.order().contains(k),
    {
        assert forall|k: Seq<char>| self.order().contains(k) implies self@.contains_key(k) by {
            let i = choose|i: int| 0 <= i < self.order().len() && self.order()[i] == k;
            assert(self@.contains_key(self.order()[i]));
        }
    }

    /// An index without keys.
    pub fn new() -> (index: Index)
        ensures
            index.wf(),
            index@ == Map::<Seq<char>, ValueMetadata>::empty(),
            index.order() == Seq::<Seq<char>>::empty(),
    {
        let index = Index { records: StringHashMap::new(), keys: Vec::new() };
        proof {
            assert(index.order() =~= Seq::<Seq<char>>::empty());
        }
        index
    }

    /// Whether the index has no key.
    pub fn is_empty(&self) -> (r: bool)
        requires
            self.wf(),
        ensures
            r == (self@.dom() =~= Set::<Seq<char>>::empty()),
    {
        let r = self.keys.len() == 0;
        proof {
            if r {
                assert(self.order() =~= Seq::<Seq<char>>::empty());
                assert forall|k: Seq<char>| !self@.contains_key(k) by {
                    if self@.contains_key(k) {
                        assert(self.order().contains(k));
                    }
                }
            } else {
                assert(self@.contains_key(self.order()[0]));
            }
        }
        r
    }

    /// The place of the record of `key`, where the index has the key.
    pub fn get(&self, key: &str) -> (r: Option<ValueMetadata>)
        ensures
            r == if self@.contains_key(key@) {
                Some(self@[key@])
            } else {
                None
            },
    {
        match self.records.get(key) {
            Some(meta) => Some(*meta),
            None => None,
        }
    }

    /// Sets the place of the record of `key`.
    pub fn insert(&mut self, key: String, meta: ValueMetadata)
        requires
            old(self).wf(),
        ensures
            final(self).wf(),
            final(self)@ == old(self)@.insert(key@, meta),
            final(self).order() == if old(self)@.contains_key(key@) {
                old(self).order()
            } else {
                old(self).order().push(key@)
            },
    {
        let ghost before = self.order();
        if !self.records.contains_key(key.as_str()) {
            self.keys.push(key.clone());
            proof {
                assert(self.order() =~= before.push(key@));
                assert(!before.contains(key@)) by {
                    if before.contains(key@) {
                        let i = choose|i: int| 0 <= i < before.len() && before[i] == key@;
                        assert(old(self)@.contains_key(before[i]));
                    }
                }
                assert(self.order().no_duplicates());
            }
        }
        self.records.insert(key, meta);
        proof {
            let now = self.order();
            assert forall|i: int| 0 <= i < now.len() implies self@.contains_key(
                #[trigger] now[i],
            ) by {
                if i < before.len() {
                    assert(now[i] == before[i]);
                    assert(old(self)@.contains_key(before[i]));
                }
            }
            assert forall|k: Seq<char>| self@.contains_key(k) implies now.contains(k) by {
                if k == key@ {
                    if old(self)@.contains_key(key@) {
                        assert(before.contains(k));
                        let i = choose|i: int| 0 <= i < before.len() && before[i] == k;
                        assert(now[i] == k);
                    } else {
                        assert(now[now.len() - 1] == k);
                    }
                } else {
                    assert(old(self)@.contains_key(k));
                    assert(before.contains(k));
                    let i = choose|i: int| 0 <= i < before.len() && before[i] == k;
                    assert(now[i] == k);
                }
            }
        }
    }

    /// Takes `key` out of the index, and tells whether it was there.
    pub fn remove(&mut self, key: &str) -> (r: bool)
        requires
            old(self).wf(),
        ensures
            final(self).wf(),
            r == old(self)@.contains_key(key@),
            final(self)@ == old(self)@.remove(key@),
    {
        if !self.records.contains_key(key) {
            proof {
                assert(self@.remove(key@) =~= self@);
            }
            return false;
        }
        let ghost before = self.order();
        let mut i: usize = 0;
        while i < self.keys.len()
            invariant
                0 <= i <= self.keys@.len(),
                *self == *old(self),
                before == self.order(),
                self.wf(),
                self@.contains_key(key@),
                forall|j: int| 0 <= j < i ==> before[j] != key@,
            decreases self.keys@.len() - i,
        {
            if crate::text::str_equal(self.keys[i].as_str(), key) {
                self.keys.remove(i);
                self.records.remove(key);
                proof {
                    let now = self.order();
                    assert(now =~= before.remove(i as int));
                    assert forall|a: int, b: int|
                        0 <= a < now.len() && 0 <= b < now.len() && a != b implies now[a]
                        != now[b] by {
                        let a0 = if a < i { a } else { a + 1 };
                        let b0 = if b < i { b } else { b + 1 };
                        assert(now[a] == before[a0]);
                        assert(now[b] == before[b0]);
                    }
                    assert forall|j: int| 0 <= j < now.len() implies self@.contains_key(
                        #[trigger] now[j],
                    ) by {
                        let j0 = if j < i { j } else { j + 1 };
                        assert(now[j] == before[j0]);
                        assert(old(self)@.contains_key(before[j0]));
                        assert(before[j0] != before[i as int]);
                    }
                    assert forall|k: Seq<char>| self@.contains_key(k) implies now.contains(k) by {
                        assert(old(self)@.contains_key(k));
                        assert(before.contains(k));
                        let j0 = choose|j: int| 0 <= j < before.len() && before[j] == k;
                        let j = if j0 < i { j0 } else { j0 - 1 };
                        assert(now[j] == k);
                    }
                }
                return true;
            }
            i = i + 1;
        }
        proof {
            assert(before.contains(key@));
        }
        self.records.remove(key);
        true
    }

    /// An index with the same keys and places, walked in the same order.
    pub fn duplicate(&self) -> (copy: Index)
        requires
            self.wf(),
        ensures
            copy.wf(),
            copy@ == self@,
            copy.order() == self.order(),
    {
        let mut copy = Index::new();
        let mut i: usize = 0;
        proof {
            self.lemma_wf();
            assert(copy.order() =~= self.order().subrange(0, 0));
        }
        while i < self.keys.len()
            invariant
                0 <= i <= self.keys@.len(),
                self.wf(),
                self.order().len() == self.keys@.len(),
                self.order().no_duplicates(),
                copy.wf(),
                copy.order() == self.order().subrange(0, i as int),
                forall|k: Seq<char>|
                    copy@.contains_key(k) <==> self.order().subrange(0, i as int).contains(k),
                forall|k: Seq<char>| copy@.contains_key(k) ==> copy@[k] == self@[k],
            decreases self.keys@.len() - i,
        {
            let ghost order = self.order();
            let ghost front = order.subrange(0, i as int);
            proof {
                assert(self@.contains_key(order[i as int]));
                assert(!front.contains(order[i as int])) by {
                    if front.contains(order[i as int]) {
                        let j = choose|j: int| 0 <= j < front.len() && front[j] == order[i as int];
                        assert(order[j] == order[i as int]);
                    }
                }
            }
            match self.records.get(self.keys[i].as_str()) {
                Some(meta) => {
                    copy.insert(self.keys[i].clone(), *meta);
                },
                None => {},
            }
            proof {
                let next = order.subrange(0, i + 1);
                assert(next =~= front.push(order[i as int]));
                assert forall|k: Seq<char>| copy@.contains_key(k) <==> next.contains(k) by {
                    if next.contains(k) {
                        let j = choose|j: int| 0 <= j < next.len() && next[j] == k;
                        if j < i {
                            assert(front[j] == k);
                        }
                    }
                    if copy@.contains_key(k) && k != order[i as int] {
                        assert(front.contains(k));
                        let j = choose|j: int| 0 <= j < front.len() && front[j] == k;
                        assert(next[j] == k);
                    }
                    if k == order[i as int] {
                        assert(next[i as int] == k);
                    }
                }
            }
            i = i + 1;
        }
        proof {
            assert(self.order().subrange(0, i as int) =~= self.order());
            assert(copy@ =~= self@);
        }
        copy
    }

    /// The places of all records, in the order of the walk.
    pub fn places(&self) -> (out: Vec<ValueMetadata>)
        requires
            self.wf(),
        ensures
            out@.len() == self.order().len(),
            forall|i: int| 0 <= i < out@.len() ==> #[trigger] out@[i] == self@[self.order()[i]],
    {
        let mut out: Vec<ValueMetadata> = Vec::new();
        let mut i: usize = 0;
        while i < self.keys.len()
            invariant
                0 <= i <= self.keys@.len(),
                self.wf(),
                self.order().len() == self.keys@.len(),
                out@.len() == i,
                forall|j: int| 0 <= j < i ==> #[trigger] out@[j] == self@[self.order()[j]],
            decreases self.keys@.len() - i,
        {
            proof {
                assert(self@.contains_key(self.order()[i as int]));
            }
            match self.records.get(self.keys[i].as_str()) {
                Some(meta) => {
                    out.push(*meta);
                },
                None => {},
            }
            i = i + 1;
        }
        out
    }
}

} // verus!
