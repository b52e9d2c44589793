//! A small key-value store of strings: a vector of entries with distinct
//! keys, viewed as a map from key to value.
use vstd::prelude::*;

verus! {

/// A store mapping string keys to string values.
pub struct KVStore {
    entries: Vec<(String, String)>,
    contents: Ghost<Map<Seq<char>, Seq<char>>>,
}

impl View for KVStore {
    type V = Map<Seq<char>, Seq<char>>;

    closed spec fn view(&self) -> Self::V {
        self.contents@
    }
}

impl KVStore {
    /// The entries have distinct keys and hold exactly the map of the view.
    pub closed spec fn wf(&self) -> bool {
        &&& forall|i: int, j: int|
            0 <= i < j < self.entries.len() ==> (#[trigger] self.entries[i]).0@ != (
            #[trigger] self.entries[j]).0@
        &&& forall|k: Seq<char>|
            #[trigger] self.contents@.contains_key(k) <==> exists|i: int|
                0 <= i < self.entries.len() && (#[trigger] self.entries[i]).0@ == k
        &&& forall|i: int|
            0 <= i < self.entries.len() ==> self.contents@[(#[trigger] self.entries[i]).0@]
                == self.entries[i].1@
    }

    /// An empty store.
    pub fn new() -> (s: Self)
        ensures
            s.wf(),
            s@ == Map::<Seq<char>, Seq<char>>::empty(),
    {
        KVStore { entries: Vec::new(), contents: Ghost(Map::empty()) }
    }

    /// The position of the entry with the given key, if there is one.
    fn find(&self, key: &String) -> (r: Option<usize>)
        ensures
            r matches Some(i) ==> i < self.entries.len() && self.entries[i as int].0@ == key@,
            r is None ==> forall|i: int|
                0 <= i < self.entries.len() ==> (#[trigger] self.entries[i]).0@ != key@,
    {
        let mut i: usize = 0;
        while i < self.entries.len()
            invariant
                i <= self.entries.len(),
                forall|j: int| 0 <= j < i ==> (#[trigger] self.entries[j]).0@ != key@,
            decreases self.entries.len() - i,
        {
            if self.entries[i].0 == *key {
                return Some(i);
            }
            i = i + 1;
        }
        None
    }

    /// Sets the value of `key`, replacing any earlier value.
    pub fn insert(&mut self, key: String, value: String)
        requires
            old(self).wf(),
        ensures
            final(self).wf(),
            final(self)@ == old(self)@.insert(key@, value@),
    {
        let ghost k = key@;
        let ghost v = value@;
        match self.find(&key) {
            Some(i) => {
                self.entries.set(i, (key, value));
                self.contents = Ghost(self.contents@.insert(k, v));
                assert forall|j: int| 0 <= j < self.entries.len() && j != i implies (
                #[trigger] self.entries[j]).0@ != k by {
                    assert(old(self).entries[j].0@ != old(self).entries[i as int].0@);
                }
                assert forall|kk: Seq<char>| #[trigger]
                    self.contents@.contains_key(kk) implies exists|j: int|
                    0 <= j < self.entries.len() && (#[trigger] self.entries[j]).0@ == kk by {
                    if kk != k {
                        let j = choose|j: int|
                            0 <= j < old(self).entries.len() && (#[trigger] old(
                                self,
                            ).entries[j]).0@ == kk;
                        assert(self.entries[j].0@ == kk);
                    } else {
                        assert(self.entries[i as int].0@ == kk);
                    }
                }
            },
            None => {
                self.entries.push((key, value));
                self.contents = Ghost(self.contents@.insert(k, v));
                let n = self.entries.len() - 1;
                assert(self.entries[n as int].0@ == k);
                assert forall|kk: Seq<char>| #[trigger]
                    self.contents@.contains_key(kk) implies exists|j: int|
                    0 <= j < self.entries.len() && (#[trigger] self.entries[j]).0@ == kk by {
                    if kk != k {
                        let j = choose|j: int|
                            0 <= j < old(self).entries.len() && (#[trigger] old(
                                self,
                            ).entries[j]).0@ == kk;
                        assert(self.entries[j].0@ == kk);
                    } else {
                        assert(self.entries[n as int].0@ == kk);
                    }
                }
            },
        }
    }

    /// The value of `key`, if the store holds one.
    pub fn get(&self, key: String) -> (r: Option<String>)
        requires
            self.wf(),
        ensures
            r is Some <==> self@.contains_key(key@),
            r matches Some(v) ==> v@ == self@[key@],
    {
        match self.find(&key) {
            Some(i) => Some(self.entries[i].1.clone()),
            None => None,
        }
    }

    /// Removes `key` and its value, if the store holds them.
    pub fn delete(&mut self, key: String)
        requires
            old(self).wf(),
        ensures
            final(self).wf(),
            final(self)@ == old(self)@.remove(key@),
    {
        match self.find(&key) {
            Some(i) => {
                let ghost before = self.entries@;
                self.entries.remove(i);
                self.contents = Ghost(self.contents@.remove(key@));
                assert forall|j: int| 0 <= j < self.entries.len() implies (
                #[trigger] self.entries[j]) == before[if j < i {
                    j
                } else {
                    j + 1
                }] by {}
                assert forall|j: int| 0 <= j < self.entries.len() implies (
                #[trigger] self.entries[j]).0@ != key@ by {
                    let oj = if j < i { j } else { j + 1 };
                    assert(old(self).entries[oj].0@ != old(self).entries[i as int].0@);
                }
                assert forall|a: int, b: int| 0 <= a < b < self.entries.len() implies (
                #[trigger] self.entries[a]).0@ != (#[trigger] self.entries[b]).0@ by {
                    let oa = if a < i { a } else { a + 1 };
                    let ob = if b < i { b } else { b + 1 };
                    assert(old(self).entries[oa].0@ != old(self).entries[ob].0@);
                }
                assert forall|kk: Seq<char>| #[trigger]
                    self.contents@.contains_key(kk) implies exists|j: int|
                    0 <= j < self.entries.len() && (#[trigger] self.entries[j]).0@ == kk by {
                    let oj = choose|oj: int|
                        0 <= oj < old(self).entries.len() && (#[trigger] old(
                            self,
                        ).entries[oj]).0@ == kk;
                    assert(oj != i);
                    let j = if oj < i { oj } else { oj - 1 };
                    assert(self.entries[j].0@ == kk);
                }
            },
            None => {
                assert(!self.contents@.contains_key(key@));
                assert(self.contents@.remove(key@) =~= self.contents@);
            },
        }
    }
}

} // verus!
