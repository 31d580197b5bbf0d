use vstd::prelude::*;

use crate::command::{Command, CommandPosition};
use crate::error::KvStoreError;
use crate::index::KeyIndex;
use crate::log::{
    contents, key_of, lemma_contents_push, lemma_live_of_distinct_puts, lemma_live_points_to_put,
    lemma_offset_monotonic, lemma_offset_prefix, lemma_size_of_set_bound, lemma_size_of_set_empty,
    lemma_size_of_set_insert,
    live, log_size, offset_of, put_value, puts_key, size_of_set,
};

verus! {

/// Shadowed bytes at which a `set` calls for compaction.
pub const THRESHOLD: u64 = 8008135;

/// The decisions of the storage engine.
///
/// The log file itself is written and read by the caller; the store keeps the
/// index of live keys, the offset at which the next record goes, and the count
/// of shadowed bytes. Its ghost log lists the records the file holds, each with
/// its size in bytes, and every method states what it does to that log.
pub struct KvStore {
    index: KeyIndex,
    dirt: u64,
    position: u64,
    log: Ghost<Seq<(Command, nat)>>,
}

/// `p` locates a record of `log` that puts value `v` under key `k`.
pub open spec fn put_at(log: Seq<(Command, nat)>, p: CommandPosition, k: Seq<char>, v: Seq<char>) -> bool {
    exists|i: int|
        0 <= i < log.len() && offset_of(log, i) == p.start && log[i].1 == p.length && puts_key(
            #[trigger] log[i].0,
            k,
        ) && put_value(log[i].0) == v
}

/// The offset at which record `i` of a decoded stream begins: where the one before it ends.
pub open spec fn end_before(ends: Seq<(Command, u64)>, i: int) -> nat {
    if i <= 0 {
        0
    } else {
        ends[i - 1].1 as nat
    }
}

/// Each record of the stream ends no earlier than the one before it.
pub open spec fn ends_ordered(ends: Seq<(Command, u64)>) -> bool {
    forall|i: int| 0 <= i < ends.len() ==> end_before(ends, i) <= #[trigger] ends[i].1
}

/// The log that a stream of decoded records describes, each paired with the
/// offset just past it: each record sized from the previous end to its own.
pub open spec fn log_of_ends(ends: Seq<(Command, u64)>) -> Seq<(Command, nat)> {
    Seq::new(ends.len(), |i: int| (ends[i].0, (ends[i].1 - end_before(ends, i)) as nat))
}

/// The stream of records, each paired with the offset just past it, that
/// decoding a file holding `log` yields.
pub open spec fn ends_of(log: Seq<(Command, nat)>) -> Seq<(Command, u64)> {
    Seq::new(log.len(), |i: int| (log[i].0, offset_of(log, i + 1) as u64))
}

/// `p` locates a record of `log` equal to `r`.
pub open spec fn copied_from(log: Seq<(Command, nat)>, p: CommandPosition, r: (Command, nat)) -> bool {
    exists|i: int|
        0 <= i < log.len() && offset_of(log, i) == p.start && log[i].1 == p.length && #[trigger] log[i]
            == r
}

/// Every record of `log` is the live one of its key: the log holds no shadowed bytes.
pub open spec fn compacted(log: Seq<(Command, nat)>) -> bool {
    forall|j: int|
        0 <= j < log.len() ==> live(log).contains_key(key_of(#[trigger] log[j].0)) && live(log)[key_of(
            log[j].0,
        )] == j
}

impl KvStore {
    /// The records of the log, in order.
    pub closed spec fn log(&self) -> Seq<(Command, nat)> {
        self.log@
    }

    /// The offset at which the next record is written.
    pub closed spec fn position(&self) -> nat {
        self.position as nat
    }

    /// The shadowed bytes counted since the last compaction.
    pub closed spec fn dirt(&self) -> nat {
        self.dirt as nat
    }

    /// The size of the record that holds the live value of `k`.
    pub closed spec fn entry_length(&self, k: Seq<char>) -> nat {
        self.log@[live(self.log@)[k]].1
    }

    /// The key/value contents of the store: those that replaying its log yields.
    pub open spec fn view(&self) -> Map<Seq<char>, Seq<char>> {
        contents(self.log())
    }

    /// The index holds, for each live key of the log and no other, where its
    /// last `Put` lies, and the write position is the end of the log.
    pub closed spec fn wf(&self) -> bool {
        &&& self.index.wf()
        &&& self.position == log_size(self.log@)
        &&& forall|k: Seq<char>| #[trigger]
            self.index@.contains_key(k) == live(self.log@).contains_key(k)
        &&& forall|k: Seq<char>| #[trigger]
            self.index@.contains_key(k) ==> self.index@[k].start == offset_of(
                self.log@,
                live(self.log@)[k],
            ) && self.index@[k].length == self.log@[live(self.log@)[k]].1
    }

    /// The position of the log's end is its size.
    pub proof fn lemma_position(&self)
        requires
            self.wf(),
        ensures
            self.position() == log_size(self.log()),
            self.position() <= u64::MAX,
    {
    }

    /// The offset at which the next record is to be written.
    pub fn log_end(&self) -> (r: u64)
        ensures
            r == self.position(),
    {
        self.position
    }

    /// A store over an empty log.
    pub fn new() -> (r: KvStore)
        ensures
            r.wf(),
            r.log() == Seq::<(Command, nat)>::empty(),
            r.view() == Map::<Seq<char>, Seq<char>>::empty(),
            r.position() == 0,
            r.dirt() == 0,
    {
        let r = KvStore { index: KeyIndex::new(), dirt: 0, position: 0, log: Ghost(Seq::empty()) };
        assert(r.view() =~= Map::<Seq<char>, Seq<char>>::empty());
        r
    }

    /// Accounts for a record of `length` bytes holding `cmd`, appended at the
    /// end of the log, and hands back the position of a `Put` it shadows.
    fn apply(&mut self, cmd: &Command, length: u64) -> (prior: Option<CommandPosition>)
        requires
            old(self).wf(),
            old(self).position() + length <= u64::MAX,
        ensures
            final(self).wf(),
            final(self).log() == old(self).log().push((*cmd, length as nat)),
            final(self).dirt() == old(self).dirt(),
            final(self).position() == old(self).position() + length,
            prior.is_some() == (cmd matches Command::Put { key, .. } && old(
                self,
            ).view().contains_key(key@)),
            prior matches Some(p) ==> (cmd matches Command::Put { key, .. } && p.length == old(
                self,
            ).entry_length(key@)),
    {
        let ghost pre = self.log@;
        let start = self.position;
        let prior = match cmd {
            Command::Put { key, .. } => self.index.insert(
                key.clone(),
                CommandPosition { start, length },
            ),
            Command::Rm { key } => {
                self.index.remove(key);
                None
            },
            _ => None,
        };
        self.position = start + length;
        self.log = Ghost(pre.push((*cmd, length as nat)));
        proof {
            let next = self.log@;
            let n = pre.len() as int;
            lemma_live_points_to_put(pre);
            lemma_contents_push(pre, (*cmd, length as nat));
            assert(next.drop_last() =~= pre);
            lemma_offset_prefix(pre, (*cmd, length as nat), n);
            assert forall|i: int| 0 <= i < n implies next[i] == pre[i] && offset_of(next, i)
                == offset_of(pre, i) by {
                lemma_offset_prefix(pre, (*cmd, length as nat), i);
            }
            assert forall|k: Seq<char>| #[trigger]
                self.index@.contains_key(k) implies self.index@[k].start == offset_of(
                    next,
                    live(next)[k],
                ) && self.index@[k].length == next[live(next)[k]].1 by {
                if self.index@.contains_key(k) && live(pre).contains_key(k) {
                    assert(0 <= live(pre)[k] < n);
                }
            }
        }
        prior
    }

    /// Accounts for a `Put` of `value` under `key`, in a record of `length`
    /// bytes appended at the end of the log.
    ///
    /// The size of the record it shadows, if any, counts as dirt (the count
    /// saturates at `u64::MAX`); the result tells whether the dirt has reached
    /// the compaction threshold, in which case the caller runs `compact`.
    pub fn set(&mut self, key: String, value: String, length: u64) -> (compact: bool)
        requires
            old(self).wf(),
            old(self).position() + length <= u64::MAX,
        ensures
            final(self).wf(),
            final(self).log() == old(self).log().push(
                (Command::Put { key: key, value: value }, length as nat),
            ),
            final(self).view() == old(self).view().insert(key@, value@),
            final(self).position() == old(self).position() + length,
            final(self).dirt() == (if old(self).view().contains_key(key@) {
                vstd::math::min(
                    (old(self).dirt() + old(self).entry_length(key@)) as int,
                    u64::MAX as int,
                ) as nat
            } else {
                old(self).dirt()
            }),
            compact == (final(self).dirt() >= THRESHOLD),
    {
        let cmd = Command::Put { key, value };
        let prior = self.apply(&cmd, length);
        proof {
            lemma_contents_push(old(self).log(), (cmd, length as nat));
        }
        match prior {
            Some(p) => {
                self.dirt = self.dirt.saturating_add(p.length);
            },
            None => {},
        }
        self.dirt >= THRESHOLD
    }

    /// Accounts for the removal of `key`, in an `Rm` record of `length` bytes
    /// to be appended at the end of the log.
    ///
    /// A key that is not live is `KeyNotFound`, and the store is left as it was:
    /// then no record is to be written. The `Rm` record itself is not counted
    /// as dirt; compaction drops it all the same.
    pub fn remove(&mut self, key: String, length: u64) -> (r: Result<(), KvStoreError>)
        requires
            old(self).wf(),
            old(self).position() + length <= u64::MAX,
        ensures
            final(self).wf(),
            old(self).view().contains_key(key@) ==> {
                &&& r is Ok
                &&& final(self).log() == old(self).log().push((Command::Rm { key: key }, length as nat))
                &&& final(self).view() == old(self).view().remove(key@)
                &&& final(self).position() == old(self).position() + length
                &&& final(self).dirt() == old(self).dirt()
            },
            !old(self).view().contains_key(key@) ==> r == Err::<(), KvStoreError>(
                KvStoreError::KeyNotFound,
            ) && *final(self) == *old(self),
    {
        if self.index.find(&key).is_none() {
            return Err(KvStoreError::KeyNotFound);
        }
        let cmd = Command::Rm { key };
        self.apply(&cmd, length);
        proof {
            lemma_contents_push(old(self).log(), (cmd, length as nat));
        }
        Ok(())
    }

    /// Opens the store over an existing log, given its records read from the
    /// start, each paired with the offset just past it: `Put` records the
    /// key's position, `Rm` drops the key, other commands are passed over.
    ///
    /// Offsets that go backwards are `InvalidLogFileCommand`. Shadowed records
    /// found on the way are not counted as dirt.
    pub fn open(records: &Vec<(Command, u64)>) -> (r: Result<KvStore, KvStoreError>)
        ensures
            r is Ok == ends_ordered(records@),
            r is Err ==> r == Err::<KvStore, KvStoreError>(KvStoreError::InvalidLogFileCommand),
            r matches Ok(s) ==> {
                &&& s.wf()
                &&& s.log() == log_of_ends(records@)
                &&& s.view() == contents(log_of_ends(records@))
                &&& s.position() == end_before(records@, records@.len() as int)
                &&& s.dirt() == 0
            },
    {
        let mut store = KvStore::new();
        let mut i: usize = 0;
        while i < records.len()
            invariant
                i <= records@.len(),
                store.wf(),
                store.dirt() == 0,
                store.log() == log_of_ends(records@).take(i as int),
                store.position() == end_before(records@, i as int),
                forall|j: int| 0 <= j < i ==> end_before(records@, j) <= #[trigger] records@[j].1,
            decreases records@.len() - i,
        {
            let end = records[i].1;
            if end < store.position {
                return Err(KvStoreError::InvalidLogFileCommand);
            }
            let length = end - store.position;
            store.apply(&records[i].0, length);
            i = i + 1;
            proof {
                assert(store.log() =~= log_of_ends(records@).take(i as int));
            }
        }
        proof {
            assert(log_of_ends(records@).take(i as int) =~= log_of_ends(records@));
        }
        Ok(store)
    }

    /// Rewrites the log with the live records alone, one per live key in the
    /// index's order, and moves the index onto the new offsets.
    ///
    /// The result lists, in the new order, where each record lay in the old
    /// log: the caller copies those byte ranges, one after another, into the
    /// new file. The contents stay as they were and the dirt is cleared.
    pub fn compact(&mut self) -> (plan: Vec<CommandPosition>)
        requires
            old(self).wf(),
        ensures
            final(self).wf(),
            final(self).view() == old(self).view(),
            final(self).dirt() == 0,
            final(self).position() == log_size(final(self).log()),
            final(self).position() <= old(self).position(),
            compacted(final(self).log()),
            plan@.len() == final(self).log().len(),
            forall|j: int|
                0 <= j < plan@.len() ==> copied_from(
                    old(self).log(),
                    plan@[j],
                    #[trigger] final(self).log()[j],
                ),
    {
        let ghost old_log = self.log@;
        let ghost orig = self.index;
        let ghost live_old = live(old_log);
        let ghost n_old = old_log.len() as int;
        let ghost mut new_log: Seq<(Command, nat)> = Seq::empty();
        let ghost mut used: Set<int> = Set::empty();
        proof {
            lemma_live_points_to_put(old_log);
            lemma_size_of_set_empty(old_log, n_old);
        }
        let mut plan: Vec<CommandPosition> = Vec::new();
        let mut cur: u64 = 0;
        let n = self.index.len();
        let mut j: usize = 0;
        while j < n
            invariant
                orig.wf(),
                n == orig.entries().len(),
                j <= n,
                self.index.entries().len() == n,
                forall|a: int| 0 <= a < n ==> (#[trigger] self.index.entries()[a]).0 == orig.entries()[a].0,
                forall|a: int| j <= a < n ==> (#[trigger] self.index.entries()[a]).1 == orig.entries()[a].1,
                self.index.wf(),
                new_log.len() == j,
                plan@.len() == j,
                forall|a: int|
                    0 <= a < j ==> #[trigger] new_log[a] == old_log[live_old[orig.entries()[a].0@]],
                forall|a: int|
                    0 <= a < j ==> (#[trigger] self.index.entries()[a]).1.start == offset_of(new_log, a)
                        && self.index.entries()[a].1.length == new_log[a].1,
                forall|a: int| 0 <= a < j ==> #[trigger] plan@[a] == orig.entries()[a].1,
                cur == log_size(new_log),
                cur == size_of_set(old_log, used, n_old),
                forall|x: int|
                    #[trigger] used.contains(x) ==> exists|a: int|
                        0 <= a < j && x == live_old[#[trigger] orig.entries()[a].0@],
                forall|a: int| 0 <= a < j ==> used.contains(live_old[#[trigger] orig.entries()[a].0@]),
                old_log == self.log@,
                live_old == live(old_log),
                n_old == old_log.len(),
                forall|k: Seq<char>| #[trigger]
                    orig@.contains_key(k) == live_old.contains_key(k),
                forall|k: Seq<char>| #[trigger]
                    orig@.contains_key(k) ==> orig@[k].start == offset_of(old_log, live_old[k])
                        && orig@[k].length == old_log[live_old[k]].1,
                forall|k: Seq<char>| #[trigger]
                    live_old.contains_key(k) ==> 0 <= live_old[k] < old_log.len() && puts_key(
                        old_log[live_old[k]].0,
                        k,
                    ),
                log_size(old_log) <= u64::MAX,
            decreases n - j,
        {
            let (_, p) = self.index.entry(j);
            let ghost k = orig.entries()[j as int].0@;
            let ghost x = live_old[k];
            proof {
                orig.lemma_slot(j as int);
                assert(!used.contains(x)) by {
                    if used.contains(x) {
                        let a = choose|a: int| 0 <= a < j && x == live_old[#[trigger] orig.entries()[a].0@];
                        let ka = orig.entries()[a].0@;
                        orig.lemma_slot(a);
                        assert(puts_key(old_log[x].0, ka));
                        assert(puts_key(old_log[x].0, k));
                        assert(orig.entries()[a].0@ != orig.entries()[j as int].0@);
                    }
                }
                lemma_size_of_set_insert(old_log, used, x, n_old);
                lemma_size_of_set_bound(old_log, used.insert(x), n_old);
            }
            let start = cur;
            cur = cur + p.length;
            plan.push(p);
            self.index.set_position(j, CommandPosition { start, length: p.length });
            proof {
                let r = old_log[x];
                lemma_offset_prefix(new_log, r, new_log.len() as int);
                assert forall|a: int| 0 <= a < j implies offset_of(new_log.push(r), a) == offset_of(new_log, a) by {
                    lemma_offset_prefix(new_log, r, a);
                }
                new_log = new_log.push(r);
                used = used.insert(x);
                assert(self.index.wf()) by {
                    assert forall|a: int, b: int|
                        0 <= a < b < self.index.entries().len() implies #[trigger] self.index.entries()[a].0@
                        != #[trigger] self.index.entries()[b].0@ by {
                        assert(orig.entries()[a].0@ != orig.entries()[b].0@);
                    }
                }
                assert forall|y: int|
                    #[trigger] used.contains(y) implies exists|a: int|
                        0 <= a < j + 1 && y == live_old[#[trigger] orig.entries()[a].0@] by {
                    if y == x {
                        assert(y == live_old[orig.entries()[j as int].0@]);
                    }
                }
            }
            j = j + 1;
        }
        proof {
            // The new log: one `Put` per key of the index, keys pairwise distinct.
            assert forall|a: int| 0 <= a < new_log.len() implies #[trigger] new_log[a].0 is Put
                && key_of(new_log[a].0) == orig.entries()[a].0@ by {
                orig.lemma_slot(a);
            }
            assert forall|a: int, b: int|
                0 <= a < b < new_log.len() implies key_of(#[trigger] new_log[a].0) != key_of(
                #[trigger] new_log[b].0,
            ) by {
                assert(key_of(new_log[a].0) == orig.entries()[a].0@);
                assert(key_of(new_log[b].0) == orig.entries()[b].0@);
                assert(orig.entries()[a].0@ != orig.entries()[b].0@);
            }
            lemma_live_of_distinct_puts(new_log);
            lemma_size_of_set_bound(old_log, used, n_old);
        }
        self.log = Ghost(new_log);
        self.position = cur;
        self.dirt = 0;
        proof {
            let idx = self.index;
            assert forall|k: Seq<char>| #[trigger] idx@.contains_key(k) == orig@.contains_key(k) by {
                if idx.has(k) {
                    let a = idx.slot(k);
                    assert(orig.entries()[a].0@ == k);
                }
                if orig.has(k) {
                    let a = orig.slot(k);
                    assert(idx.entries()[a].0@ == k);
                }
            }
            assert forall|k: Seq<char>| #[trigger] idx@.contains_key(k) implies live(new_log).contains_key(k)
                && live(new_log)[k] == idx.slot(k) by {
                let a = idx.slot(k);
                idx.lemma_slot(a);
                assert(key_of(new_log[a].0) == k);
            }
            assert forall|k: Seq<char>| #[trigger] live(new_log).contains_key(k) implies idx@.contains_key(k) by {
                let a = choose|a: int| 0 <= a < new_log.len() && key_of(#[trigger] new_log[a].0) == k;
                idx.lemma_slot(a);
            }
            assert(self.wf());
            assert forall|k: Seq<char>| #[trigger] live(new_log).contains_key(k) implies live_old.contains_key(k)
                && put_value(new_log[live(new_log)[k]].0) == put_value(old_log[live_old[k]].0) by {
                let a = idx.slot(k);
                orig.lemma_slot(a);
            }
            assert forall|k: Seq<char>| #[trigger] live_old.contains_key(k) implies live(new_log).contains_key(k) by {
                assert(orig@.contains_key(k));
                assert(idx@.contains_key(k));
            }
            assert(self.view() =~= contents(old_log));
            assert forall|a: int| 0 <= a < plan@.len() implies copied_from(old_log, plan@[a],
                #[trigger] new_log[a]) by {
                orig.lemma_slot(a);
                let x = live_old[orig.entries()[a].0@];
                assert(old_log[x] == new_log[a]);
            }
        }
        plan
    }

    /// Where the live value of `key` lies in the log, if `key` is live.
    pub fn get(&self, key: &String) -> (r: Option<CommandPosition>)
        requires
            self.wf(),
        ensures
            r.is_some() == self.view().contains_key(key@),
            r matches Some(p) ==> put_at(self.log(), p, key@, self.view()[key@]),
    {
        let r = self.index.get(key);
        proof {
            lemma_live_points_to_put(self.log@);
            if self.view().contains_key(key@) {
                let i = live(self.log@)[key@];
                assert(puts_key(self.log@[i].0, key@));
            }
        }
        r
    }
}

/// The value that a record read back from the log stores, or
/// `InvalidLogFileCommand` where the record is no `Put`.
pub fn value_of_record(cmd: Command) -> (r: Result<String, KvStoreError>)
    ensures
        cmd matches Command::Put { value, .. } ==> r == Ok::<String, KvStoreError>(value),
        !(cmd is Put) ==> r == Err::<String, KvStoreError>(KvStoreError::InvalidLogFileCommand),
{
    match cmd {
        Command::Put { value, .. } => Ok(value),
        _ => Err(KvStoreError::InvalidLogFileCommand),
    }
}

} // verus!
