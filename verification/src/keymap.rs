//! A map from byte string keys to values, in key order.
use crate::order::{
    before, comes_before, lemma_before_irreflexive, lemma_before_total, lemma_before_transitive,
};
use vstd::prelude::*;

verus! {

/// Keys with the value each names, ascending by key.
#[derive(Debug)]
pub struct KeyMap<V> {
    pub entries: Vec<(Vec<u8>, V)>,
}

/// The place of a key.
pub open spec fn at_key<V>(entries: Seq<(Vec<u8>, V)>, key: Seq<u8>, i: int) -> bool {
    0 <= i < entries.len() && entries[i].0@ == key
}

impl<V> View for KeyMap<V> {
    type V = Map<Seq<u8>, V>;

    open spec fn view(&self) -> Map<Seq<u8>, V> {
        Map::new(
            |key: Seq<u8>| exists|i: int| #[trigger] at_key(self.entries@, key, i),
            |key: Seq<u8>|
                self.entries@[choose|i: int| #[trigger] at_key(self.entries@, key, i)].1,
        )
    }
}

/// The keys ascend.
pub open spec fn keys_ascend<V>(entries: Seq<(Vec<u8>, V)>) -> bool {
    forall|i: int, j: int|
        0 <= i < j < entries.len() ==> before((#[trigger] entries[i]).0@, (#[trigger] entries[j]).0@)
}

impl<V: Copy> KeyMap<V> {
    pub open spec fn wf(&self) -> bool {
        keys_ascend(self.entries@)
    }

    /// The value at the place of a key is the one the map gives.
    pub proof fn lemma_at(&self, i: int)
        requires
            self.wf(),
            0 <= i < self.entries@.len(),
        ensures
            self@.dom().contains(self.entries@[i].0@),
            self@[self.entries@[i].0@] == self.entries@[i].1,
    {
        let key = self.entries@[i].0@;
        assert(at_key(self.entries@, key, i));
        let j = choose|j: int| #[trigger] at_key(self.entries@, key, j);
        lemma_before_irreflexive(key);
        if j < i {
            assert(before(self.entries@[j].0@, self.entries@[i].0@));
        } else if i < j {
            assert(before(self.entries@[i].0@, self.entries@[j].0@));
        }
    }

    pub fn new() -> (map: Self)
        ensures
            map.wf(),
            map@ == Map::<Seq<u8>, V>::empty(),
            map.entries@.len() == 0,
    {
        let map = KeyMap { entries: Vec::new() };
        assert(map@ =~= Map::<Seq<u8>, V>::empty());
        map
    }

    /// Where a key is, or where it would go.
    pub fn seek(&self, key: &[u8]) -> (found: core::result::Result<usize, usize>)
        requires
            self.wf(),
        ensures
            match found {
                Ok(at) => at < self.entries@.len() && self.entries@[at as int].0@ == key@,
                Err(at) => at <= self.entries@.len() && (forall|i: int|
                    0 <= i < at ==> before((#[trigger] self.entries@[i]).0@, key@)) && (forall|
                    i: int,
                |
                    at <= i < self.entries@.len() ==> before(
                        key@,
                        (#[trigger] self.entries@[i]).0@,
                    )),
            },
    {
        let mut lo: usize = 0;
        let mut hi: usize = self.entries.len();
        while lo < hi
            invariant
                lo <= hi <= self.entries@.len(),
                self.wf(),
                forall|i: int| 0 <= i < lo ==> before((#[trigger] self.entries@[i]).0@, key@),
                forall|i: int|
                    hi <= i < self.entries@.len() ==> before(
                        key@,
                        (#[trigger] self.entries@[i]).0@,
                    ),
            decreases hi - lo,
        {
            let mid: usize = lo + (hi - lo) / 2;
            let held = self.entries[mid].0.as_slice();
            if comes_before(held, key) {
                proof {
                    assert forall|i: int| 0 <= i < mid + 1 implies before(
                        (#[trigger] self.entries@[i]).0@,
                        key@,
                    ) by {
                        if i < mid {
                            lemma_before_transitive(self.entries@[i].0@, held@, key@);
                        }
                    }
                }
                lo = mid + 1;
            } else if comes_before(key, held) {
                proof {
                    assert forall|i: int| mid <= i < self.entries@.len() implies before(
                        key@,
                        (#[trigger] self.entries@[i]).0@,
                    ) by {
                        if i > mid {
                            lemma_before_transitive(key@, held@, self.entries@[i].0@);
                        }
                    }
                }
                hi = mid;
            } else {
                proof {
                    lemma_before_total(held@, key@);
                }
                return Ok(mid);
            }
        }
        Err(lo)
    }

    /// The value a key names.
    pub fn get(&self, key: &[u8]) -> (found: Option<V>)
        requires
            self.wf(),
        ensures
            found == if self@.dom().contains(key@) {
                Some(self@[key@])
            } else {
                None
            },
    {
        match self.seek(key) {
            Ok(at) => {
                proof {
                    self.lemma_at(at as int);
                }
                Some(self.entries[at].1)
            },
            Err(at) => {
                proof {
                    self.lemma_absent(key@, at as int);
                }
                None
            },
        }
    }

    proof fn lemma_absent(&self, key: Seq<u8>, at: int)
        requires
            0 <= at <= self.entries@.len(),
            forall|i: int| 0 <= i < at ==> before((#[trigger] self.entries@[i]).0@, key),
            forall|i: int|
                at <= i < self.entries@.len() ==> before(key, (#[trigger] self.entries@[i]).0@),
        ensures
            !self@.dom().contains(key),
    {
        lemma_before_irreflexive(key);
        if self@.dom().contains(key) {
            let i = choose|i: int| #[trigger] at_key(self.entries@, key, i);
            assert(self.entries@[i].0@ == key);
        }
    }

    /// Makes a key name a value, and gives the one it named before.
    pub fn insert(&mut self, key: Vec<u8>, doc: V) -> (before: Option<V>)
        requires
            old(self).wf(),
        ensures
            final(self).wf(),
            final(self)@ == old(self)@.insert(key@, doc),
            before == if old(self)@.dom().contains(key@) {
                Some(old(self)@[key@])
            } else {
                None
            },
            final(self).entries@.len() == old(self).entries@.len() + if before is None {
                1nat
            } else {
                0nat
            },
    {
        let ghost was = *self;
        match self.seek(key.as_slice()) {
            Ok(at) => {
                proof {
                    was.lemma_at(at as int);
                }
                let held: V = self.entries[at].1;
                let ghost name = key@;
                self.entries.set(at, (key, doc));
                proof {
                    assert forall|i: int, j: int|
                        0 <= i < j < self.entries@.len() implies crate::order::before(
                        (#[trigger] self.entries@[i]).0@,
                        (#[trigger] self.entries@[j]).0@,
                    ) by {
                        assert(crate::order::before(was.entries@[i].0@, was.entries@[j].0@));
                    }
                    self.lemma_changed(&was, name, doc, at as int);
                }
                Some(held)
            },
            Err(at) => {
                proof {
                    was.lemma_absent(key@, at as int);
                }
                let ghost name = key@;
                self.entries.insert(at, (key, doc));
                proof {
                    assert forall|i: int, j: int|
                        0 <= i < j < self.entries@.len() implies crate::order::before(
                        (#[trigger] self.entries@[i]).0@,
                        (#[trigger] self.entries@[j]).0@,
                    ) by {
                        let p = if i < at {
                            i
                        } else {
                            i - 1
                        };
                        let q = if j < at {
                            j
                        } else {
                            j - 1
                        };
                        if i != at && j != at {
                            assert(crate::order::before(was.entries@[p].0@, was.entries@[q].0@));
                        } else if i == at {
                            assert(crate::order::before(name, was.entries@[q].0@));
                        } else {
                            assert(crate::order::before(was.entries@[p].0@, name));
                        }
                    }
                    self.lemma_changed(&was, name, doc, at as int);
                }
                None
            },
        }
    }

    /// A map with one entry put in or replaced.
    proof fn lemma_changed(&self, was: &KeyMap<V>, key: Seq<u8>, doc: V, at: int)
        requires
            self.wf(),
            was.wf(),
            0 <= at < self.entries@.len(),
            self.entries@[at].0@ == key,
            self.entries@[at].1 == doc,
            ({
                ||| at < was.entries@.len() && was.entries@[at].0@ == key && self.entries@.len()
                    == was.entries@.len() && forall|i: int|
                    0 <= i < was.entries@.len() && i != at ==> #[trigger] self.entries@[i]
                        == was.entries@[i]
                ||| self.entries@.len() == was.entries@.len() + 1 && !was@.dom().contains(key) && (
                forall|i: int|
                    0 <= i < at ==> #[trigger] self.entries@[i] == was.entries@[i]) && (forall|
                    i: int,
                |
                    at < i < self.entries@.len() ==> #[trigger] self.entries@[i] == was.entries@[i
                        - 1])
            }),
        ensures
            self@ == was@.insert(key, doc),
    {
        let expected = was@.insert(key, doc);
        self.lemma_at(at);
        assert forall|k: Seq<u8>| self@.dom().contains(k) == expected.dom().contains(k) by {
            if self@.dom().contains(k) {
                let i = choose|i: int| #[trigger] at_key(self.entries@, k, i);
                if i != at {
                    let j = if self.entries@.len() == was.entries@.len() || i < at {
                        i
                    } else {
                        i - 1
                    };
                    assert(self.entries@[i] == was.entries@[j]);
                    assert(at_key(was.entries@, k, j));
                }
            }
            if was@.dom().contains(k) {
                let i = choose|i: int| #[trigger] at_key(was.entries@, k, i);
                let j = if self.entries@.len() == was.entries@.len() || i < at {
                    i
                } else {
                    i + 1
                };
                if j != at {
                    assert(self.entries@[j] == was.entries@[i]);
                }
                assert(at_key(self.entries@, k, j));
            }
        }
        assert forall|k: Seq<u8>| self@.dom().contains(k) implies self@[k] == expected[k] by {
            let i = choose|i: int| #[trigger] at_key(self.entries@, k, i);
            self.lemma_at(i);
            if k != key {
                let j = if self.entries@.len() == was.entries@.len() || i < at {
                    i
                } else {
                    i - 1
                };
                assert(i != at);
                assert(self.entries@[i] == was.entries@[j]);
                was.lemma_at(j);
            }
        }
        assert(self@ =~= expected);
    }
}

} // verus!
