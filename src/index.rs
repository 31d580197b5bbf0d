use vstd::prelude::*;

use crate::command::CommandPosition;

verus! {

/// The in-memory index: for each live key, where its latest `Put` record lies.
///
/// Entries are kept in a vector with pairwise distinct keys; their order
/// carries no meaning beyond fixing the order in which compaction rewrites them.
pub struct KeyIndex {
    entries: Vec<(String, CommandPosition)>,
}

impl KeyIndex {
    /// The entries as (key, position) pairs.
    pub closed spec fn entries(&self) -> Seq<(String, CommandPosition)> {
        self.entries@
    }

    /// No key occurs twice.
    pub open spec fn wf(&self) -> bool {
        forall|i: int, j: int|
            0 <= i < j < self.entries().len() ==> #[trigger] self.entries()[i].0@
                != #[trigger] self.entries()[j].0@
    }

    /// Whether `k` has an entry.
    pub open spec fn has(&self, k: Seq<char>) -> bool {
        exists|i: int| 0 <= i < self.entries().len() && #[trigger] self.entries()[i].0@ == k
    }

    /// The slot that holds `k`.
    pub open spec fn slot(&self, k: Seq<char>) -> int {
        choose|i: int| 0 <= i < self.entries().len() && #[trigger] self.entries()[i].0@ == k
    }

    /// The index as a map from key to position.
    pub open spec fn view(&self) -> Map<Seq<char>, CommandPosition> {
        Map::new(|k: Seq<char>| self.has(k), |k: Seq<char>| self.entries()[self.slot(k)].1)
    }

    /// In a well-formed index the slot of a key at `i` is `i`.
    pub proof fn lemma_slot(&self, i: int)
        requires
            self.wf(),
            0 <= i < self.entries().len(),
        ensures
            self.has(self.entries()[i].0@),
            self.slot(self.entries()[i].0@) == i,
            self@.contains_key(self.entries()[i].0@),
            self@[self.entries()[i].0@] == self.entries()[i].1,
    {
        let k = self.entries()[i].0@;
        assert(self.entries()[i].0@ == k);
        let j = self.slot(k);
        assert(0 <= j < self.entries().len() && self.entries()[j].0@ == k);
        if j < i {
            assert(self.entries()[j].0@ != self.entries()[i].0@);
        } else if i < j {
            assert(self.entries()[i].0@ != self.entries()[j].0@);
        }
    }

    /// An empty index.
    pub fn new() -> (r: KeyIndex)
        ensures
            r.wf(),
            r@ == Map::<Seq<char>, CommandPosition>::empty(),
            r.entries().len() == 0,
    {
        let r = KeyIndex { entries: Vec::new() };
        assert(r@ =~= Map::<Seq<char>, CommandPosition>::empty());
        r
    }

    /// The number of live keys.
    pub fn len(&self) -> (r: usize)
        ensures
            r == self.entries().len(),
    {
        self.entries.len()
    }

    /// The slot of `key`, if it has one.
    pub fn find(&self, key: &String) -> (r: Option<usize>)
        requires
            self.wf(),
        ensures
            r.is_some() == self@.contains_key(key@),
            r matches Some(i) ==> i < self.entries().len() && self.entries()[i as int].0@ == key@
                && self.slot(key@) == i,
    {
        let mut i: usize = 0;
        while i < self.entries.len()
            invariant
                self.wf(),
                i <= self.entries().len(),
                forall|j: int| 0 <= j < i ==> #[trigger] self.entries()[j].0@ != key@,
            decreases self.entries().len() - i,
        {
            if self.entries[i].0 == *key {
                proof {
                    self.lemma_slot(i as int);
                }
                return Some(i);
            }
            i = i + 1;
        }
        None
    }

    /// The position recorded for `key`.
    pub fn get(&self, key: &String) -> (r: Option<CommandPosition>)
        requires
            self.wf(),
        ensures
            r == (if self@.contains_key(key@) {
                Some(self@[key@])
            } else {
                None::<CommandPosition>
            }),
    {
        match self.find(key) {
            Some(i) => Some(self.entries[i].1),
            None => None,
        }
    }

    /// Records `pos` for `key` and hands back the position it replaces.
    pub fn insert(&mut self, key: String, pos: CommandPosition) -> (r: Option<CommandPosition>)
        requires
            old(self).wf(),
        ensures
            final(self).wf(),
            final(self)@ == old(self)@.insert(key@, pos),
            r == (if old(self)@.contains_key(key@) {
                Some(old(self)@[key@])
            } else {
                None::<CommandPosition>
            }),
    {
        let ghost pre = *self;
        match self.find(&key) {
            Some(i) => {
                let prior = self.entries[i].1;
                self.entries.set(i, (key, pos));
                proof {
                    assert(self.wf()) by {
                        assert forall|a: int, b: int|
                            0 <= a < b < self.entries().len() implies #[trigger] self.entries()[a].0@
                            != #[trigger] self.entries()[b].0@ by {
                            assert(pre.entries()[a].0@ != pre.entries()[b].0@);
                        }
                    }
                    self.lemma_slot(i as int);
                    assert forall|k: Seq<char>| #[trigger] self.has(k) == pre.has(k) by {
                        if self.has(k) {
                            let j = self.slot(k);
                            if j != i {
                                assert(pre.entries()[j].0@ == k);
                            }
                        }
                        if pre.has(k) {
                            let j = pre.slot(k);
                            assert(self.entries()[j].0@ == k);
                        }
                    }
                    assert forall|k: Seq<char>| self.has(k) && k != key@ implies self@[k]
                        == pre@[k] by {
                        let j = self.slot(k);
                        pre.lemma_slot(j);
                        self.lemma_slot(j);
                    }
                    assert(self@ =~= pre@.insert(key@, pos));
                }
                Some(prior)
            },
            None => {
                self.entries.push((key, pos));
                proof {
                    let n = pre.entries().len() as int;
                    assert(self.wf()) by {
                        assert forall|a: int, b: int|
                            0 <= a < b < self.entries().len() implies #[trigger] self.entries()[a].0@
                            != #[trigger] self.entries()[b].0@ by {
                            if b < n {
                                assert(pre.entries()[a].0@ != pre.entries()[b].0@);
                            } else {
                                assert(pre.entries()[a].0@ == self.entries()[a].0@);
                            }
                        }
                    }
                    self.lemma_slot(n);
                    assert forall|k: Seq<char>| #[trigger] self.has(k) == (pre.has(k) || k
                        == key@) by {
                        if self.has(k) {
                            let j = self.slot(k);
                            if j < n {
                                assert(pre.entries()[j].0@ == k);
                            }
                        }
                        if pre.has(k) {
                            let j = pre.slot(k);
                            assert(self.entries()[j].0@ == k);
                        }
                    }
                    assert forall|k: Seq<char>| self.has(k) && k != key@ implies self@[k]
                        == pre@[k] by {
                        let j = self.slot(k);
                        if j < n {
                            pre.lemma_slot(j);
                        }
                        self.lemma_slot(j);
                    }
                    assert(self@ =~= pre@.insert(key@, pos));
                }
                None
            },
        }
    }

    /// Drops the entry of `key` and hands back its position.
    pub fn remove(&mut self, key: &String) -> (r: Option<CommandPosition>)
        requires
            old(self).wf(),
        ensures
            final(self).wf(),
            final(self)@ == old(self)@.remove(key@),
            r == (if old(self)@.contains_key(key@) {
                Some(old(self)@[key@])
            } else {
                None::<CommandPosition>
            }),
    {
        let ghost pre = *self;
        match self.find(key) {
            Some(i) => {
                let removed = self.entries.remove(i);
                proof {
                    let n = pre.entries().len() as int;
                    let ii = i as int;
                    assert forall|j: int| 0 <= j < n - 1 implies #[trigger] self.entries()[j]
                        == pre.entries()[if j < ii {
                        j
                    } else {
                        j + 1
                    }] by {}
                    assert(self.wf()) by {
                        assert forall|a: int, b: int|
                            0 <= a < b < self.entries().len() implies #[trigger] self.entries()[a].0@
                            != #[trigger] self.entries()[b].0@ by {
                            let a0 = if a < ii {
                                a
                            } else {
                                a + 1
                            };
                            let b0 = if b < ii {
                                b
                            } else {
                                b + 1
                            };
                            assert(self.entries()[a] == pre.entries()[a0]);
                            assert(self.entries()[b] == pre.entries()[b0]);
                            assert(pre.entries()[a0].0@ != pre.entries()[b0].0@);
                        }
                    }
                    assert forall|k: Seq<char>| #[trigger] self.has(k) == (pre.has(k) && k
                        != key@) by {
                        if self.has(k) {
                            let j = self.slot(k);
                            let j0 = if j < ii {
                                j
                            } else {
                                j + 1
                            };
                            assert(self.entries()[j] == pre.entries()[j0]);
                            assert(pre.entries()[j0].0@ == k);
                            if k == key@ {
                                pre.lemma_slot(j0);
                                pre.lemma_slot(ii);
                            }
                        }
                        if pre.has(k) && k != key@ {
                            let j0 = pre.slot(k);
                            let j = if j0 < ii {
                                j0
                            } else {
                                j0 - 1
                            };
                            assert(j0 != ii);
                            assert(self.entries()[j] == pre.entries()[j0]);
                            assert(self.entries()[j].0@ == k);
                        }
                    }
                    assert forall|k: Seq<char>| self.has(k) implies self@[k] == pre@[k] by {
                        let j = self.slot(k);
                        let j0 = if j < ii {
                            j
                        } else {
                            j + 1
                        };
                        assert(self.entries()[j] == pre.entries()[j0]);
                        pre.lemma_slot(j0);
                        self.lemma_slot(j);
                    }
                    assert(self@ =~= pre@.remove(key@));
                }
                Some(removed.1)
            },
            None => {
                proof {
                    assert(self@ =~= pre@.remove(key@));
                }
                None
            },
        }
    }

    /// The entry in slot `i`.
    pub fn entry(&self, i: usize) -> (r: (&String, CommandPosition))
        requires
            i < self.entries().len(),
        ensures
            r.0 == &self.entries()[i as int].0,
            r.1 == self.entries()[i as int].1,
    {
        (&self.entries[i].0, self.entries[i].1)
    }

    /// Moves the entry in slot `i` to `pos`.
    pub fn set_position(&mut self, i: usize, pos: CommandPosition)
        requires
            i < old(self).entries().len(),
        ensures
            final(self).entries().len() == old(self).entries().len(),
            forall|j: int|
                0 <= j < old(self).entries().len() && j != i ==> final(self).entries()[j] == old(
                    self,
                ).entries()[j],
            final(self).entries()[i as int].0 == old(self).entries()[i as int].0,
            final(self).entries()[i as int].1 == pos,
    {
        self.entries[i].1 = pos;
    }
}

} // verus!
